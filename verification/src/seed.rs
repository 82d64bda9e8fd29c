//! The fallback seed text: the program's own source files, split into lines
//! with tabs widened to four spaces, each line highlighted for a 24-bit
//! color terminal by `syntect`.

use syntect::highlighting::{HighlightIterator, HighlightState, Highlighter, Style, Theme, ThemeSet};
use syntect::parsing::{ParseState, ScopeStack, SyntaxSet};
use syntect::util::as_24_bit_terminal_escaped;
use vstd::prelude::*;

verus! {

#[verifier::external_type_specification]
#[verifier::external_body]
pub struct ExSyntaxSet(SyntaxSet);

#[verifier::external_type_specification]
#[verifier::external_body]
pub struct ExTheme(Theme);

#[verifier::external_type_specification]
#[verifier::external_body]
pub struct ExParseState(ParseState);

#[verifier::external_type_specification]
#[verifier::external_body]
pub struct ExHighlightState(HighlightState);

/// A highlighter for Rust source in the theme `base16-eighties.dark`, with
/// `syntect`'s default syntaxes: the syntax set, the theme, and the parse and
/// highlight state carried from line to line.
pub struct RustHighlighter {
    syntaxes: SyntaxSet,
    theme: Theme,
    parse: ParseState,
    highlight: HighlightState,
}

/// The escaped text that a Rust highlighter in the theme
/// `base16-eighties.dark` (the only highlighter this crate builds) gives
/// `line` after it has been fed the lines `before`, in order.
pub uninterp spec fn highlighted(before: Seq<Seq<char>>, line: Seq<char>) -> Seq<char>;

/// That highlighter cannot parse `line` after it has been fed the lines
/// `before`, in order.
pub uninterp spec fn highlight_fails(before: Seq<Seq<char>>, line: Seq<char>) -> bool;

/// The lines a highlighter has been fed so far, in order.
pub uninterp spec fn lines_fed(h: RustHighlighter) -> Seq<Seq<char>>;

/// A fresh highlighter: `SyntaxSet::load_defaults_newlines`, the theme
/// `base16-eighties.dark` of `ThemeSet::load_defaults` (whose documentation
/// lists it), the syntax for the extension `rs` from
/// `SyntaxSet::find_syntax_by_extension` (one of the default syntaxes), a
/// `ParseState::new` for it and a `HighlightState::new` for the theme, as
/// `HighlightLines::new` builds them. Its contract claims that it has been
/// fed no lines yet.
#[verifier::external_body]
fn new_rust_highlighter() -> (h: RustHighlighter)
    ensures
        lines_fed(h) == Seq::<Seq<char>>::empty(),
{
    let syntaxes = SyntaxSet::load_defaults_newlines();
    let theme = ThemeSet::load_defaults().themes.remove("base16-eighties.dark").unwrap();
    let parse = ParseState::new(syntaxes.find_syntax_by_extension("rs").unwrap());
    let highlight = HighlightState::new(&Highlighter::new(&theme), ScopeStack::new());
    RustHighlighter { syntaxes, theme, parse, highlight }
}

/// Highlights one line as `HighlightLines::highlight_line` does
/// (`ParseState::parse_line` with the highlighter's own syntax set, then a
/// `HighlightIterator`) and writes the styled pieces as 24-bit terminal
/// escapes with `as_24_bit_terminal_escaped` (foreground only). Its contract
/// claims that the result is `None` exactly when the parse fails
/// (`highlight_fails`), that otherwise it is the named result `highlighted`
/// of the lines fed before and this line, and that the line then counts as
/// fed. Nothing is claimed of the state after a failure.
#[verifier::external_body]
fn highlight_line(h: &mut RustHighlighter, line: &Vec<char>) -> (r: Option<String>)
    ensures
        r is None <==> highlight_fails(lines_fed(*old(h)), line@),
        r matches Some(out) ==> out@ == highlighted(lines_fed(*old(h)), line@),
        r is Some ==> lines_fed(*final(h)) == lines_fed(*old(h)).push(line@),
{
    let text: String = line.iter().collect();
    let ops = match h.parse.parse_line(&text, &h.syntaxes) {
        Ok(ops) => ops,
        Err(_) => return None,
    };
    let highlighter = Highlighter::new(&h.theme);
    let ranges: Vec<(Style, &str)> = HighlightIterator::new(&mut h.highlight, &ops[..], &text, &highlighter).collect();
    Some(as_24_bit_terminal_escaped(&ranges[..], false))
}

/// `line` with a carriage return at its end dropped.
pub open spec fn without_cr(line: Seq<char>) -> Seq<char> {
    if line.len() > 0 && line.last() == '\r' {
        line.drop_last()
    } else {
        line
    }
}

/// Reading `s` from the start: the lines ended so far and the line being
/// read, with each tab widened to four spaces. A line ends at `'\n'`, and a
/// `'\r'` just before that `'\n'` is dropped.
pub open spec fn scan_lines(s: Seq<char>) -> (Seq<Seq<char>>, Seq<char>)
    decreases s.len(),
{
    if s.len() == 0 {
        (Seq::empty(), Seq::empty())
    } else {
        let (done, cur) = scan_lines(s.drop_last());
        let c = s.last();
        if c == '\n' {
            (done.push(without_cr(cur)), Seq::empty())
        } else if c == '\t' {
            (done, cur + seq![' ', ' ', ' ', ' '])
        } else {
            (done, cur.push(c))
        }
    }
}

/// The lines of `s` with tabs widened to four spaces, as `str::lines` splits
/// them: a final line need not end in `'\n'`, and no empty line follows a
/// final `'\n'`.
pub open spec fn source_lines(s: Seq<char>) -> Seq<Seq<char>> {
    let (done, cur) = scan_lines(s);
    if cur.len() == 0 {
        done
    } else {
        done.push(cur)
    }
}

/// The lines of the sources, one source after another.
pub open spec fn all_lines(sources: Seq<Seq<char>>) -> Seq<Seq<char>>
    decreases sources.len(),
{
    if sources.len() == 0 {
        Seq::empty()
    } else {
        all_lines(sources.drop_last()) + source_lines(sources.last())
    }
}

/// The highlighted text of `lines` fed after the lines `before`: each line
/// highlighted and followed by `'\n'`.
pub open spec fn highlighted_lines(before: Seq<Seq<char>>, lines: Seq<Seq<char>>) -> Seq<char>
    decreases lines.len(),
{
    if lines.len() == 0 {
        Seq::empty()
    } else {
        highlighted_lines(before, lines.drop_last()) + highlighted(before + lines.drop_last(), lines.last())
            + seq!['\n']
    }
}

/// The characters of `s`.
fn chars_of(s: &String) -> (cs: Vec<char>)
    ensures
        cs@ == s@,
{
    broadcast use vstd::string::group_string_axioms;

    let text = s.as_str();
    let mut it = text.chars();
    let mut cs: Vec<char> = Vec::new();
    loop
        invariant
            cs@.len() <= text@.len(),
            vstd::std_specs::iter::IteratorSpec::remaining(&it) == text@.skip(cs@.len() as int),
            cs@ == text@.take(cs@.len() as int),
            text@ == s@,
        decreases text@.len() - cs@.len(),
    {
        let ghost before = vstd::std_specs::iter::IteratorSpec::remaining(&it);
        match it.next() {
            Some(c) => {
                assert(before.len() > 0);
                cs.push(c);
                assert(cs@ =~= text@.take(cs@.len() as int));
                assert(vstd::std_specs::iter::IteratorSpec::remaining(&it) =~= text@.skip(cs@.len() as int));
            },
            None => {
                assert(before.len() == 0);
                assert(cs@ =~= text@);
                return cs;
            },
        }
    }
}

/// The lines of `s` with tabs widened to four spaces.
fn lines_of(s: &String) -> (lines: Vec<Vec<char>>)
    ensures
        lines@.map_values(|l: Vec<char>| l@) == source_lines(s@),
{
    let cs = chars_of(s);
    let mut lines: Vec<Vec<char>> = Vec::new();
    let mut cur: Vec<char> = Vec::new();
    let mut i: usize = 0;
    assert(cs@.take(0) =~= Seq::<char>::empty());
    while i < cs.len()
        invariant
            i <= cs@.len(),
            cs@ == s@,
            scan_lines(cs@.take(i as int)) == (lines@.map_values(|l: Vec<char>| l@), cur@),
        decreases cs@.len() - i,
    {
        let c = cs[i];
        assert(cs@.take(i + 1).drop_last() =~= cs@.take(i as int));
        assert(cs@.take(i + 1).last() == c);
        if c == '\n' {
            if cur.len() > 0 && cur[cur.len() - 1] == '\r' {
                cur.pop();
            }
            let ghost done = lines@.map_values(|l: Vec<char>| l@);
            lines.push(cur);
            cur = Vec::new();
            assert(lines@.map_values(|l: Vec<char>| l@) =~= done.push(without_cr(
                scan_lines(cs@.take(i as int)).1,
            )));
        } else if c == '\t' {
            let ghost before = cur@;
            cur.push(' ');
            cur.push(' ');
            cur.push(' ');
            cur.push(' ');
            assert(cur@ =~= before + seq![' ', ' ', ' ', ' ']);
        } else {
            cur.push(c);
        }
        i += 1;
    }
    assert(cs@.take(i as int) =~= s@);
    if cur.len() > 0 {
        let ghost done = lines@.map_values(|l: Vec<char>| l@);
        let ghost last = cur@;
        lines.push(cur);
        assert(lines@.map_values(|l: Vec<char>| l@) =~= done.push(last));
    }
    lines
}

/// The views of the sources.
pub open spec fn source_views(sources: Seq<String>) -> Seq<Seq<char>> {
    sources.map_values(|s: String| s@)
}

/// Some line of `lines` cannot be highlighted after the lines before it.
pub open spec fn fails_somewhere(lines: Seq<Seq<char>>) -> bool {
    exists|j: int| 0 <= j < lines.len() && highlight_fails(lines.take(j), #[trigger] lines[j])
}

/// The lines of the first `k` sources come first among the lines of all of
/// them.
proof fn lemma_all_lines_prefix(sources: Seq<Seq<char>>, k: int)
    requires
        0 <= k <= sources.len(),
    ensures
        all_lines(sources.take(k)).len() <= all_lines(sources).len(),
        all_lines(sources).take(all_lines(sources.take(k)).len() as int) == all_lines(sources.take(k)),
    decreases sources.len(),
{
    if k == sources.len() {
        assert(sources.take(k) =~= sources);
        assert(all_lines(sources).take(all_lines(sources).len() as int) =~= all_lines(sources));
    } else {
        let init = sources.drop_last();
        assert(sources.take(k) =~= init.take(k));
        lemma_all_lines_prefix(init, k);
        let a = all_lines(init);
        let b = source_lines(sources.last());
        let p = all_lines(init.take(k));
        assert(all_lines(sources) == a + b);
        assert((a + b).take(p.len() as int) =~= a.take(p.len() as int));
    }
}

/// Highlights the sources one after another with a single Rust highlighter
/// in the theme `base16-eighties.dark`: text `k` holds the lines of source
/// `k` (tabs widened to four spaces), each highlighted after all the lines
/// before it and followed by `'\n'`. `None` exactly when some line cannot be
/// highlighted after the lines before it.
pub fn highlight_sources(sources: &Vec<String>) -> (r: Option<Vec<String>>)
    ensures
        r is None <==> fails_somewhere(all_lines(source_views(sources@))),
        r matches Some(texts) ==> {
            &&& texts@.len() == sources@.len()
            &&& forall|k: int|
                0 <= k < sources@.len() ==> (#[trigger] texts@[k])@ == highlighted_lines(
                    all_lines(source_views(sources@).take(k)),
                    source_lines(sources@[k]@),
                )
        },
{
    let ghost sv = source_views(sources@);
    let mut h = new_rust_highlighter();
    let newline = "\n";
    proof {
        reveal_strlit("\n");
        assert(newline@ =~= seq!['\n']);
    }
    let mut texts: Vec<String> = Vec::new();
    let mut k: usize = 0;
    assert(sv.take(0) =~= Seq::<Seq<char>>::empty());
    while k < sources.len()
        invariant
            k <= sources@.len(),
            sv == source_views(sources@),
            newline@ == seq!['\n'],
            texts@.len() == k,
            lines_fed(h) == all_lines(sv.take(k as int)),
            forall|j: int|
                0 <= j < lines_fed(h).len() ==> !highlight_fails(lines_fed(h).take(j), #[trigger] lines_fed(h)[j]),
            forall|j: int|
                0 <= j < k ==> (#[trigger] texts@[j])@ == highlighted_lines(
                    all_lines(sv.take(j)),
                    source_lines(sources@[j]@),
                ),
        decreases sources@.len() - k,
    {
        let ghost before = all_lines(sv.take(k as int));
        let lines = lines_of(&sources[k]);
        let ghost lv = lines@.map_values(|l: Vec<char>| l@);
        proof {
            assert(sv.take(k + 1).drop_last() =~= sv.take(k as int));
            assert(sv.take(k + 1).last() == sources@[k as int]@);
            assert(all_lines(sv.take(k + 1)) == before + lv);
            lemma_all_lines_prefix(sv, k + 1);
        }
        let mut text = String::new();
        let mut i: usize = 0;
        assert(lv.take(0) =~= Seq::<Seq<char>>::empty());
        assert(before + lv.take(0) =~= before);
        while i < lines.len()
            invariant
                i <= lines@.len(),
                k < sources@.len(),
                sv == source_views(sources@),
                lv == lines@.map_values(|l: Vec<char>| l@),
                newline@ == seq!['\n'],
                before + lv == all_lines(sv.take(k + 1)),
                all_lines(sv).take((before + lv).len() as int) == before + lv,
                (before + lv).len() <= all_lines(sv).len(),
                lines_fed(h) == before + lv.take(i as int),
                forall|j: int|
                    0 <= j < lines_fed(h).len() ==> !highlight_fails(lines_fed(h).take(j), #[trigger] lines_fed(h)[j]),
                text@ == highlighted_lines(before, lv.take(i as int)),
            decreases lines@.len() - i,
        {
            let ghost fed = lines_fed(h);
            let out = match highlight_line(&mut h, &lines[i]) {
                Some(o) => o,
                None => {
                    proof {
                        let all = all_lines(sv);
                        let j = fed.len() as int;
                        assert(fed =~= (before + lv).take(j));
                        assert((before + lv)[j] == lines@[i as int]@);
                        assert(all.take(j) =~= (before + lv).take(j));
                        assert(all[j] == (before + lv)[j]);
                        assert(highlight_fails(all.take(j), all[j]));
                    }
                    return None;
                },
            };
            proof {
                assert(lv.take(i + 1).drop_last() =~= lv.take(i as int));
                assert(lv.take(i + 1).last() == lines@[i as int]@);
                assert(before + lv.take(i + 1) =~= (before + lv.take(i as int)).push(lines@[i as int]@));
                let nf = lines_fed(h);
                assert forall|j: int| 0 <= j < nf.len() implies !highlight_fails(nf.take(j), #[trigger] nf[j]) by {
                    if j < fed.len() {
                        assert(nf.take(j) =~= fed.take(j));
                        assert(nf[j] == fed[j]);
                    } else {
                        assert(nf.take(j) =~= fed);
                    }
                }
            }
            text.append(out.as_str());
            text.append(newline);
            i += 1;
        }
        proof {
            assert(lv.take(i as int) =~= lv);
        }
        texts.push(text);
        k += 1;
    }
    proof {
        assert(sv.take(k as int) =~= sv);
        assert(!fails_somewhere(all_lines(sv)));
    }
    Some(texts)
}

} // verus!
