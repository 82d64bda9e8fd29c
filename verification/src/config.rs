//! The configuration: reading the TOML text of the configuration file, and
//! the edits that a request on the command line for one animation makes to
//! it (that animation becomes the only one enabled, the time limit is lifted,
//! and the options given are written into the animation's table).

use vstd::prelude::*;

verus! {

#[verifier::external_type_specification]
#[verifier::external_body]
pub struct ExValue(toml::Value);

/// `text` is a TOML document that `toml::from_str` reads into a value.
pub uninterp spec fn toml_parses(text: Seq<char>) -> bool;

/// The message of the error that `toml::from_str` reports for `text`.
pub uninterp spec fn toml_error(text: Seq<char>) -> Seq<char>;

/// Reads `text` with `toml::from_str` into a `toml::Value`, the error turned
/// into its message. Its contract claims that the result is `Ok` exactly when
/// the text parses (`toml_parses`) and that the message is the named
/// `toml_error` of the text; nothing is claimed of the value read.
#[verifier::external_body]
fn parse_config_text(text: &str) -> (r: Result<toml::Value, String>)
    ensures
        r is Ok <==> toml_parses(text@),
        r matches Err(m) ==> m@ == toml_error(text@),
{
    match toml::from_str::<toml::Value>(text) {
        Ok(v) => Ok(v),
        Err(e) => Err(e.to_string()),
    }
}

/// Reads the text of the configuration file; an error says why it could not
/// be read.
pub fn parse_config(text: &str) -> (r: Result<toml::Value, String>)
    ensures
        r is Ok <==> toml_parses(text@),
        r matches Err(m) ==> m@ == "Failed to read config file: "@ + toml_error(text@),
{
    match parse_config_text(text) {
        Ok(v) => Ok(v),
        Err(e) => Err(String::from_str("Failed to read config file: ").concat(e.as_str())),
    }
}

/// The value of an option given on the command line. `F` is the type of the
/// options that are numbers with a fraction, which are carried as they are.
#[derive(Debug)]
pub enum FlagValue<F> {
    Integer(i64),
    Boolean(bool),
    Text(String),
    Float(F),
}

/// A `FlagValue` with its text as a sequence.
pub enum FlagView<F> {
    Integer(i64),
    Boolean(bool),
    Text(Seq<char>),
    Float(F),
}

pub open spec fn flag_view<F>(v: FlagValue<F>) -> FlagView<F> {
    match v {
        FlagValue::Integer(i) => FlagView::Integer(i),
        FlagValue::Boolean(b) => FlagView::Boolean(b),
        FlagValue::Text(s) => FlagView::Text(s@),
        FlagValue::Float(f) => FlagView::Float(f),
    }
}

/// A setting (key and value) as sequences.
pub open spec fn entry_view<F>(p: (String, FlagValue<F>)) -> (Seq<char>, FlagView<F>) {
    (p.0@, flag_view(p.1))
}

/// Settings as sequences.
pub open spec fn entries_view<F>(s: Seq<(String, FlagValue<F>)>) -> Seq<(Seq<char>, FlagView<F>)> {
    s.map_values(|p: (String, FlagValue<F>)| entry_view(p))
}

/// The animation asked for on the command line, with its options.
pub enum AnimCommand<F> {
    Saturn { bg_index: Option<usize>, no_giygas: bool, lifetime: Option<F> },
    Perlin { gradient: Option<String>, speed: Option<F> },
    Cosine { speed: Option<F> },
    Slime { gradient: Option<String> },
    Maelstrom { wait_time: Option<F>, speed_min: Option<F>, speed_max: Option<F> },
    Conway { stale_ticks: Option<usize>, tick_rate: Option<F> },
    Collapse { direction: Option<String> },
}

/// An animation to play alone, and the settings to write into its table.
pub struct AnimationRequest<F> {
    pub name: String,
    pub flags: Vec<(String, FlagValue<F>)>,
}

/// The setting `key` when an option was given.
pub open spec fn optional<F>(key: Seq<char>, v: Option<FlagView<F>>) -> Seq<(Seq<char>, FlagView<F>)> {
    match v {
        Some(x) => seq![(key, x)],
        None => Seq::empty(),
    }
}

/// A number option.
pub open spec fn float_flag<F>(v: Option<F>) -> Option<FlagView<F>> {
    match v {
        Some(f) => Some(FlagView::Float(f)),
        None => None,
    }
}

/// The name of the animation asked for.
pub open spec fn command_name<F>(cmd: AnimCommand<F>) -> Seq<char> {
    match cmd {
        AnimCommand::Saturn { .. } => "saturn"@,
        AnimCommand::Perlin { .. } => "perlin"@,
        AnimCommand::Cosine { .. } => "cosine"@,
        AnimCommand::Slime { .. } => "slime"@,
        AnimCommand::Maelstrom { .. } => "maelstrom"@,
        AnimCommand::Conway { .. } => "conway"@,
        AnimCommand::Collapse { .. } => "collapse"@,
    }
}

/// A text option, for options of type `F`.
pub open spec fn text_of<F>(v: Option<String>) -> Option<FlagView<F>> {
    match v {
        Some(s) => Some(FlagView::Text(s@)),
        None => None,
    }
}

/// The settings the command writes, in order: for each option given, its
/// name and value (`no_giygas` always; counts as integers).
pub open spec fn command_flags<F>(cmd: AnimCommand<F>) -> Seq<(Seq<char>, FlagView<F>)> {
    match cmd {
        AnimCommand::Saturn { bg_index, no_giygas, lifetime } => seq![
            ("no_giygas"@, FlagView::Boolean(no_giygas)),
        ] + optional(
            "bg_index"@,
            match bg_index {
                Some(i) => Some(FlagView::Integer(i as i64)),
                None => None,
            },
        ) + optional("lifetime"@, float_flag(lifetime)),
        AnimCommand::Perlin { gradient, speed } => optional("gradient"@, text_of(gradient)) + optional(
            "speed"@,
            float_flag(speed),
        ),
        AnimCommand::Cosine { speed } => optional("speed"@, float_flag(speed)),
        AnimCommand::Slime { gradient } => optional("gradient"@, text_of(gradient)),
        AnimCommand::Maelstrom { wait_time, speed_min, speed_max } => optional(
            "wait_time"@,
            float_flag(wait_time),
        ) + optional("speed_min"@, float_flag(speed_min)) + optional("speed_max"@, float_flag(speed_max)),
        AnimCommand::Conway { stale_ticks, tick_rate } => optional(
            "stale_ticks"@,
            match stale_ticks {
                Some(n) => Some(FlagView::Integer(n as i64)),
                None => None,
            },
        ) + optional("tick_rate"@, float_flag(tick_rate)),
        AnimCommand::Collapse { direction } => optional("direction"@, text_of(direction)),
    }
}

/// Appends the setting `key` when an option was given.
fn push_optional<F>(flags: &mut Vec<(String, FlagValue<F>)>, key: &str, v: Option<FlagValue<F>>)
    ensures
        entries_view(final(flags)@) == entries_view(old(flags)@) + optional(
            key@,
            match v {
                Some(x) => Some(flag_view(x)),
                None => None,
            },
        ),
{
    let ghost before = flags@;
    match v {
        Some(x) => {
            flags.push((String::from_str(key), x));
            assert(entries_view(flags@) =~= entries_view(before) + seq![(key@, flag_view(x))]);
        },
        None => {
            assert(entries_view(flags@) =~= entries_view(before) + Seq::<(Seq<char>, FlagView<F>)>::empty());
        },
    }
}

/// A number option as a setting value.
fn float_value<F>(v: Option<F>) -> (r: Option<FlagValue<F>>)
    ensures
        match r {
            Some(x) => Some(flag_view(x)),
            None => None,
        } == float_flag(v),
{
    match v {
        Some(f) => Some(FlagValue::Float(f)),
        None => None,
    }
}

/// A text option as a setting value.
fn text_value<F>(v: Option<String>) -> (r: Option<FlagValue<F>>)
    ensures
        match r {
            Some(x) => Some(flag_view(x)),
            None => None,
        } == text_of::<F>(v),
{
    match v {
        Some(s) => Some(FlagValue::Text(s)),
        None => None,
    }
}

/// A count option as a setting value, converted to a TOML integer.
fn count_value<F>(v: Option<usize>) -> (r: Option<FlagValue<F>>)
    ensures
        match r {
            Some(x) => Some(flag_view(x)),
            None => None,
        } == match v {
            Some(n) => Some(FlagView::<F>::Integer(n as i64)),
            None => None,
        },
{
    match v {
        Some(n) => Some(FlagValue::Integer(n as i64)),
        None => None,
    }
}

/// The animation a command asks for and the settings it writes.
pub fn request_of<F>(cmd: AnimCommand<F>) -> (r: AnimationRequest<F>)
    ensures
        r.name@ == command_name(cmd),
        entries_view(r.flags@) == command_flags(cmd),
{
    let ghost c = cmd;
    let mut flags: Vec<(String, FlagValue<F>)> = Vec::new();
    assert(entries_view(flags@) =~= Seq::<(Seq<char>, FlagView<F>)>::empty());
    let name = match cmd {
        AnimCommand::Saturn { bg_index, no_giygas, lifetime } => {
            flags.push((String::from_str("no_giygas"), FlagValue::Boolean(no_giygas)));
            assert(entries_view(flags@) =~= seq![("no_giygas"@, FlagView::<F>::Boolean(no_giygas))]);
            push_optional(&mut flags, "bg_index", count_value(bg_index));
            push_optional(&mut flags, "lifetime", float_value(lifetime));
            String::from_str("saturn")
        },
        AnimCommand::Perlin { gradient, speed } => {
            push_optional(&mut flags, "gradient", text_value(gradient));
            push_optional(&mut flags, "speed", float_value(speed));
            String::from_str("perlin")
        },
        AnimCommand::Cosine { speed } => {
            push_optional(&mut flags, "speed", float_value(speed));
            String::from_str("cosine")
        },
        AnimCommand::Slime { gradient } => {
            push_optional(&mut flags, "gradient", text_value(gradient));
            String::from_str("slime")
        },
        AnimCommand::Maelstrom { wait_time, speed_min, speed_max } => {
            push_optional(&mut flags, "wait_time", float_value(wait_time));
            push_optional(&mut flags, "speed_min", float_value(speed_min));
            push_optional(&mut flags, "speed_max", float_value(speed_max));
            String::from_str("maelstrom")
        },
        AnimCommand::Conway { stale_ticks, tick_rate } => {
            push_optional(&mut flags, "stale_ticks", count_value(stale_ticks));
            push_optional(&mut flags, "tick_rate", float_value(tick_rate));
            String::from_str("conway")
        },
        AnimCommand::Collapse { direction } => {
            push_optional(&mut flags, "direction", text_value(direction));
            String::from_str("collapse")
        },
    };
    AnimationRequest { name, flags }
}

/// 1 when the option was given, 0 when not.
pub open spec fn given<T>(o: Option<T>) -> int {
    if o is Some {
        1
    } else {
        0
    }
}

/// When the number option was given as `f`, the settings hold `key` with
/// value `f`.
pub open spec fn float_written<F>(flags: Seq<(Seq<char>, FlagView<F>)>, key: Seq<char>, v: Option<F>) -> bool {
    v matches Some(f) ==> flags.contains((key, FlagView::Float(f)))
}

/// When the text option was given as `s`, the settings hold `key` with
/// text `s`.
pub open spec fn text_written<F>(flags: Seq<(Seq<char>, FlagView<F>)>, key: Seq<char>, v: Option<String>) -> bool {
    v matches Some(s) ==> flags.contains((key, FlagView::Text(s@)))
}

/// When the count option was given as `n`, the settings hold `key` with
/// the TOML integer `n`.
pub open spec fn count_written<F>(flags: Seq<(Seq<char>, FlagView<F>)>, key: Seq<char>, v: Option<usize>) -> bool {
    v matches Some(n) ==> flags.contains((key, FlagView::Integer(n as i64)))
}

/// Every option given with `cmd` is among `flags` under its own name and
/// with the value given (`no_giygas` always, as a boolean), and `flags`
/// holds nothing else: one setting per option given.
pub open spec fn writes_given_options<F>(cmd: AnimCommand<F>, flags: Seq<(Seq<char>, FlagView<F>)>) -> bool {
    match cmd {
        AnimCommand::Saturn { bg_index, no_giygas, lifetime } => {
            &&& flags.contains(("no_giygas"@, FlagView::Boolean(no_giygas)))
            &&& count_written(flags, "bg_index"@, bg_index)
            &&& float_written(flags, "lifetime"@, lifetime)
            &&& flags.len() == 1 + given(bg_index) + given(lifetime)
        },
        AnimCommand::Perlin { gradient, speed } => {
            &&& text_written(flags, "gradient"@, gradient)
            &&& float_written(flags, "speed"@, speed)
            &&& flags.len() == given(gradient) + given(speed)
        },
        AnimCommand::Cosine { speed } => {
            &&& float_written(flags, "speed"@, speed)
            &&& flags.len() == given(speed)
        },
        AnimCommand::Slime { gradient } => {
            &&& text_written(flags, "gradient"@, gradient)
            &&& flags.len() == given(gradient)
        },
        AnimCommand::Maelstrom { wait_time, speed_min, speed_max } => {
            &&& float_written(flags, "wait_time"@, wait_time)
            &&& float_written(flags, "speed_min"@, speed_min)
            &&& float_written(flags, "speed_max"@, speed_max)
            &&& flags.len() == given(wait_time) + given(speed_min) + given(speed_max)
        },
        AnimCommand::Conway { stale_ticks, tick_rate } => {
            &&& count_written(flags, "stale_ticks"@, stale_ticks)
            &&& float_written(flags, "tick_rate"@, tick_rate)
            &&& flags.len() == given(stale_ticks) + given(tick_rate)
        },
        AnimCommand::Collapse { direction } => {
            &&& text_written(flags, "direction"@, direction)
            &&& flags.len() == given(direction)
        },
    }
}

/// `optional` adds one setting when the option was given, none otherwise,
/// and the setting it adds stands in the sum.
proof fn lemma_optional_in_sum<F>(a: Seq<(Seq<char>, FlagView<F>)>, key: Seq<char>, v: Option<FlagView<F>>, b: Seq<(Seq<char>, FlagView<F>)>)
    ensures
        (a + optional(key, v) + b).len() == a.len() + given(v) + b.len(),
        v matches Some(x) ==> (a + optional(key, v) + b).contains((key, x)),
        forall|e| a.contains(e) ==> #[trigger] (a + optional(key, v) + b).contains(e),
        forall|e| b.contains(e) ==> #[trigger] (a + optional(key, v) + b).contains(e),
{
    let s = a + optional(key, v) + b;
    let o = optional(key, v);
    if let Some(x) = v {
        assert(s[a.len() as int] == (key, x));
    }
    assert forall|e| a.contains(e) implies #[trigger] s.contains(e) by {
        let i = choose|i: int| 0 <= i < a.len() && a[i] == e;
        assert(s[i] == e);
    }
    assert forall|e| b.contains(e) implies #[trigger] s.contains(e) by {
        let i = choose|i: int| 0 <= i < b.len() && b[i] == e;
        assert(s[a.len() + o.len() + i] == e);
    }
}

/// Whatever the command, every option given on the command line is among
/// the settings the request writes, under the option's name and with the
/// value given, and nothing else is: `request_of` returns these settings
/// (`command_flags`).
pub proof fn lemma_request_writes_given_options<F>(cmd: AnimCommand<F>)
    ensures
        writes_given_options(cmd, command_flags(cmd)),
{
    let e = Seq::<(Seq<char>, FlagView<F>)>::empty();
    match cmd {
        AnimCommand::Saturn { bg_index, no_giygas, lifetime } => {
            let first = seq![("no_giygas"@, FlagView::<F>::Boolean(no_giygas))];
            let bg = match bg_index {
                Some(i) => Some(FlagView::<F>::Integer(i as i64)),
                None => None,
            };
            assert(first.contains(("no_giygas"@, FlagView::<F>::Boolean(no_giygas)))) by {
                assert(first[0] == ("no_giygas"@, FlagView::<F>::Boolean(no_giygas)));
            }
            lemma_optional_in_sum(first, "bg_index"@, bg, e);
            assert(first + optional("bg_index"@, bg) + e =~= first + optional("bg_index"@, bg));
            lemma_optional_in_sum(first + optional("bg_index"@, bg), "lifetime"@, float_flag(lifetime), e);
            assert(first + optional("bg_index"@, bg) + optional("lifetime"@, float_flag(lifetime)) + e
                =~= command_flags(cmd));
        },
        AnimCommand::Perlin { gradient, speed } => {
            lemma_optional_in_sum(e, "gradient"@, text_of::<F>(gradient), optional("speed"@, float_flag(speed)));
            lemma_optional_in_sum(optional("gradient"@, text_of::<F>(gradient)), "speed"@, float_flag(speed), e);
            assert(e + optional("gradient"@, text_of::<F>(gradient)) + optional("speed"@, float_flag(speed))
                =~= command_flags(cmd));
            assert(optional("gradient"@, text_of::<F>(gradient)) + optional("speed"@, float_flag(speed)) + e
                =~= command_flags(cmd));
        },
        AnimCommand::Cosine { speed } => {
            lemma_optional_in_sum(e, "speed"@, float_flag(speed), e);
            assert(e + optional("speed"@, float_flag(speed)) + e =~= command_flags(cmd));
        },
        AnimCommand::Slime { gradient } => {
            lemma_optional_in_sum(e, "gradient"@, text_of::<F>(gradient), e);
            assert(e + optional("gradient"@, text_of::<F>(gradient)) + e =~= command_flags(cmd));
        },
        AnimCommand::Maelstrom { wait_time, speed_min, speed_max } => {
            let w = optional("wait_time"@, float_flag(wait_time));
            let lo = optional("speed_min"@, float_flag(speed_min));
            let hi = optional("speed_max"@, float_flag(speed_max));
            lemma_optional_in_sum(e, "wait_time"@, float_flag(wait_time), lo + hi);
            assert(e + w + (lo + hi) =~= command_flags(cmd));
            lemma_optional_in_sum(w, "speed_min"@, float_flag(speed_min), hi);
            assert(w + lo + hi =~= command_flags(cmd));
            lemma_optional_in_sum(w + lo, "speed_max"@, float_flag(speed_max), e);
            assert(w + lo + hi + e =~= command_flags(cmd));
        },
        AnimCommand::Conway { stale_ticks, tick_rate } => {
            let st = match stale_ticks {
                Some(n) => Some(FlagView::<F>::Integer(n as i64)),
                None => None,
            };
            lemma_optional_in_sum(e, "stale_ticks"@, st, optional("tick_rate"@, float_flag(tick_rate)));
            lemma_optional_in_sum(optional("stale_ticks"@, st), "tick_rate"@, float_flag(tick_rate), e);
            assert(e + optional("stale_ticks"@, st) + optional("tick_rate"@, float_flag(tick_rate))
                =~= command_flags(cmd));
            assert(optional("stale_ticks"@, st) + optional("tick_rate"@, float_flag(tick_rate)) + e
                =~= command_flags(cmd));
        },
        AnimCommand::Collapse { direction } => {
            lemma_optional_in_sum(e, "direction"@, text_of::<F>(direction), e);
            assert(e + optional("direction"@, text_of::<F>(direction)) + e =~= command_flags(cmd));
        },
    }
}

/// The edits a request makes to the configuration.
pub struct ConfigEdits<F> {
    /// The list of enabled animations to put in place, when the
    /// configuration has such a list.
    pub enabled: Option<Vec<String>>,
    /// Whether the time limit is set to 0 (no limit).
    pub clear_time_limit: bool,
    /// The table the settings go into.
    pub section: String,
    /// The settings to write into that table.
    pub settings: Vec<(String, FlagValue<F>)>,
}

/// The edits that playing `req` alone makes to a configuration that has a
/// list of enabled animations (`has_list`), a time limit that is a number
/// with a fraction (`time_is_float`) and a table for the animation
/// (`has_section`): the list becomes exactly the requested animation, the
/// time limit is lifted, and the settings go into the animation's table;
/// nothing that the configuration lacks is added.
pub fn request_edits<F>(req: AnimationRequest<F>, has_list: bool, time_is_float: bool, has_section: bool) -> (e:
    ConfigEdits<F>)
    ensures
        e.enabled is Some <==> has_list,
        e.enabled matches Some(l) ==> l@.len() == 1 && l@[0]@ == req.name@,
        e.clear_time_limit == time_is_float,
        e.section@ == req.name@,
        entries_view(e.settings@) == if has_section {
            entries_view(req.flags@)
        } else {
            Seq::empty()
        },
{
    let AnimationRequest { name, flags } = req;
    let enabled = if has_list {
        let mut list: Vec<String> = Vec::new();
        list.push(name.clone());
        Some(list)
    } else {
        None
    };
    let settings = if has_section {
        flags
    } else {
        let empty: Vec<(String, FlagValue<F>)> = Vec::new();
        assert(entries_view(empty@) =~= Seq::<(Seq<char>, FlagView<F>)>::empty());
        empty
    };
    ConfigEdits { enabled, clear_time_limit: time_is_float, section: name, settings }
}

} // verus!
