//! Query matching: compiling a literal or regular-expression query into a
//! matcher, filtering entry lists with it, and computing highlight spans.
//!
//! The regular-expression engine itself is the `regex` crate; its results
//! are named by uninterpreted spec functions and everything built on top of
//! them is verified.
use vstd::prelude::*;
use vstd::utf8::encode_utf8;
use crate::views_of;

verus! {

/// Whether a character has significance in a regular expression: the fixed
/// set that `regex_syntax::is_meta_character` recognises and
/// `regex::escape` therefore escapes.
pub open spec fn is_meta_char(c: char) -> bool {
    ||| c == '\\'
    ||| c == '.'
    ||| c == '+'
    ||| c == '*'
    ||| c == '?'
    ||| c == '('
    ||| c == ')'
    ||| c == '|'
    ||| c == '['
    ||| c == ']'
    ||| c == '{'
    ||| c == '}'
    ||| c == '^'
    ||| c == '$'
    ||| c == '#'
    ||| c == '&'
    ||| c == '-'
    ||| c == '~'
}

/// The text `regex::escape` produces for a query: the query itself with a
/// backslash put before every meta character.
pub open spec fn regex_escaped(s: Seq<char>) -> Seq<char>
    decreases s.len(),
{
    if s.len() == 0 {
        Seq::empty()
    } else {
        regex_escaped(s.drop_last()) + (if is_meta_char(s.last()) {
            seq!['\\', s.last()]
        } else {
            seq![s.last()]
        })
    }
}

/// Whether `regex::RegexBuilder::build` accepts a pattern under a case
/// flag, with the compiled-size limit lifted (as `compile_matcher` builds
/// it): success then depends on the pattern's syntax alone.
pub uninterp spec fn regex_compiles(pattern: Seq<char>, case_insensitive: bool) -> bool;

/// Whether a compiled pattern matches anywhere in a text.
pub uninterp spec fn regex_matches(pattern: Seq<char>, case_insensitive: bool, text: Seq<char>) -> bool;

/// The byte ranges of the successive non-overlapping matches of a compiled
/// pattern in a text, leftmost first, as `regex::Regex::find_iter` yields
/// them.
pub uninterp spec fn regex_match_spans(
    pattern: Seq<char>,
    case_insensitive: bool,
    text: Seq<char>,
) -> Seq<(usize, usize)>;

#[verifier::external_type_specification]
#[verifier::external_body]
pub struct ExRegex(regex::Regex);

/// A compiled query. The pattern and case flag are kept beside the compiled
/// expression; `compile_matcher` is the only constructor, so the expression
/// is always the compilation of that pattern under that flag.
pub struct Matcher {
    regex: regex::Regex,
    pattern: String,
    case_insensitive: bool,
}

impl Matcher {
    /// The pattern this matcher was compiled from.
    pub closed spec fn pattern(&self) -> Seq<char> {
        self.pattern@
    }

    /// Whether this matcher ignores case.
    pub closed spec fn ignores_case(&self) -> bool {
        self.case_insensitive
    }
}

/// Relies on `regex::escape`: it puts a backslash before each character of
/// `regex_syntax::is_meta_character`'s fixed set and leaves every other
/// character alone. Its documentation promises the result "may be safely
/// used as a literal in a regular expression", and `compile_matcher` lifts
/// the compiled-size limit, so the escaped text compiles under either case
/// flag.
#[verifier::external_body]
pub(crate) fn escape_query(s: &str) -> (r: String)
    ensures
        r@ == regex_escaped(s@),
        regex_compiles(r@, true),
        regex_compiles(r@, false),
{
    regex::escape(s)
}

/// Relies on `regex::RegexBuilder` (`new`, `case_insensitive`,
/// `size_limit`, `build`): with the compiled-size limit lifted, building
/// succeeds exactly when the pattern is syntactically valid under the given
/// case flag, and the resulting matcher holds that pattern and flag.
#[verifier::external_body]
pub(crate) fn compile_matcher(pattern: String, case_insensitive: bool) -> (r: Option<Matcher>)
    ensures
        r is Some <==> regex_compiles(pattern@, case_insensitive),
        r matches Some(m) ==> m.pattern() == pattern@ && m.ignores_case() == case_insensitive,
{
    let built = regex::RegexBuilder::new(&pattern)
        .case_insensitive(case_insensitive)
        .size_limit(usize::MAX)
        .build();
    match built {
        Ok(regex) => Some(Matcher { regex, pattern, case_insensitive }),
        Err(_) => None,
    }
}

/// Relies on `regex::Regex::is_match`: whether the compiled pattern matches
/// anywhere in `text`; the result depends only on the pattern, the case
/// flag and the text.
#[verifier::external_body]
pub(crate) fn matcher_is_match(m: &Matcher, text: &str) -> (r: bool)
    ensures
        r == regex_matches(m.pattern(), m.ignores_case(), text@),
{
    m.regex.is_match(text)
}

/// Relies on `regex::Regex::find_iter`: yields the successive
/// non-overlapping matches in `text`, leftmost first; each is converted to
/// its byte range. Each range is a well-formed byte range into `text`, and
/// the ranges come in order without overlapping.
#[verifier::external_body]
pub(crate) fn matcher_find_spans(m: &Matcher, text: &str) -> (r: Vec<(usize, usize)>)
    ensures
        r@ == regex_match_spans(m.pattern(), m.ignores_case(), text@),
        forall|k: int|
            0 <= k < r@.len() ==> (#[trigger] r@[k]).0 <= r@[k].1 <= encode_utf8(text@).len(),
        forall|k: int| 0 <= k + 1 < r@.len() ==> (#[trigger] r@[k]).1 <= r@[k + 1].0,
{
    m.regex.find_iter(text).map(|mm| (mm.start(), mm.end())).collect()
}

/// The entries of `s` that the pattern matches, in their original order.
pub open spec fn filtered_by(s: Seq<Seq<char>>, pattern: Seq<char>, case_insensitive: bool) -> Seq<
    Seq<char>,
> {
    s.filter(|x: Seq<char>| regex_matches(pattern, case_insensitive, x))
}

/// Filtering a one-longer prefix keeps the old result and appends the new
/// element exactly when it matches.
pub proof fn lemma_filtered_by_step(
    s: Seq<Seq<char>>,
    pattern: Seq<char>,
    case_insensitive: bool,
    i: int,
)
    requires
        0 <= i < s.len(),
    ensures
        filtered_by(s.subrange(0, i + 1), pattern, case_insensitive) == if regex_matches(
            pattern,
            case_insensitive,
            s[i],
        ) {
            filtered_by(s.subrange(0, i), pattern, case_insensitive).push(s[i])
        } else {
            filtered_by(s.subrange(0, i), pattern, case_insensitive)
        },
{
    let t = s.subrange(0, i + 1);
    assert(t.drop_last() =~= s.subrange(0, i));
    assert(t.last() == s[i]);
    reveal(Seq::filter);
}

/// Filtering keeps only entries of the original list, and a list without
/// duplicates stays without duplicates.
pub proof fn lemma_filtered_by_distinct(s: Seq<Seq<char>>, pattern: Seq<char>, case_insensitive: bool)
    ensures
        forall|x: Seq<char>|
            #[trigger] filtered_by(s, pattern, case_insensitive).contains(x) ==> s.contains(x),
        crate::sort::distinct_seq(s) ==> crate::sort::distinct_seq(
            filtered_by(s, pattern, case_insensitive),
        ),
{
    crate::sort::lemma_filter_distinct(
        s,
        |x: Seq<char>| regex_matches(pattern, case_insensitive, x),
    );
}

/// Keep only the entries that the matcher matches somewhere, preserving
/// their relative order.
pub fn apply(m: &Matcher, entries: &Vec<String>) -> (r: Vec<String>)
    ensures
        views_of(r@) == filtered_by(views_of(entries@), m.pattern(), m.ignores_case()),
{
    let ghost v = views_of(entries@);
    let mut r: Vec<String> = Vec::new();
    let mut i: usize = 0;
    proof {
        assert(v.subrange(0, 0) =~= Seq::<Seq<char>>::empty());
        reveal(Seq::filter);
        assert(views_of(r@) =~= filtered_by(v.subrange(0, 0), m.pattern(), m.ignores_case()));
    }
    while i < entries.len()
        invariant
            0 <= i <= entries@.len(),
            v == views_of(entries@),
            views_of(r@) == filtered_by(v.subrange(0, i as int), m.pattern(), m.ignores_case()),
        decreases entries@.len() - i,
    {
        let ghost old_r = r@;
        proof {
            lemma_filtered_by_step(v, m.pattern(), m.ignores_case(), i as int);
            assert(v[i as int] == entries@[i as int]@);
        }
        if matcher_is_match(m, entries[i].as_str()) {
            let e = entries[i].clone();
            r.push(e);
            proof {
                assert(views_of(r@) =~= views_of(old_r).push(entries@[i as int]@));
            }
        }
        i = i + 1;
    }
    proof {
        assert(v.subrange(0, entries@.len() as int) =~= v);
    }
    r
}

/// The byte offset at which character `k` of `s` starts: the UTF-8 length
/// of the characters before it.
pub open spec fn char_offset(s: Seq<char>, k: int) -> int {
    encode_utf8(s.subrange(0, k)).len() as int
}

/// Relies on `str::char_indices`: it yields each character of the string
/// together with its byte position, which is the UTF-8 length of the
/// characters before it.
#[verifier::external_body]
fn char_positions(text: &str) -> (r: Vec<usize>)
    ensures
        r@.len() == text@.len(),
        forall|k: int| 0 <= k < r@.len() ==> #[trigger] r@[k] as int == char_offset(text@, k),
{
    text.char_indices().map(|(i, _)| i).collect()
}

/// Whether some match range covers the byte offset `off`.
pub open spec fn span_covers(spans: Seq<(usize, usize)>, off: int) -> bool {
    exists|i: int| 0 <= i < spans.len() && (#[trigger] spans[i]).0 <= off < spans[i].1
}

/// The character indices below `k` whose byte offset in `text` some match
/// range covers, in ascending order.
pub open spec fn highlighted_up_to(
    spans: Seq<(usize, usize)>,
    text: Seq<char>,
    k: int,
) -> Seq<usize>
    decreases k,
{
    if k <= 0 {
        Seq::empty()
    } else {
        let t = highlighted_up_to(spans, text, k - 1);
        if span_covers(spans, char_offset(text, k - 1)) {
            t.push((k - 1) as usize)
        } else {
            t
        }
    }
}

/// The character indices of `text` that some match of the pattern covers.
pub open spec fn highlighted_chars(
    pattern: Seq<char>,
    case_insensitive: bool,
    text: Seq<char>,
) -> Seq<usize> {
    highlighted_up_to(
        regex_match_spans(pattern, case_insensitive, text),
        text,
        text.len() as int,
    )
}

/// The highlighted indices are strictly ascending character positions of
/// the text.
pub proof fn lemma_highlighted_in_range(spans: Seq<(usize, usize)>, text: Seq<char>, k: int)
    requires
        k <= usize::MAX as int,
    ensures
        forall|i: int|
            0 <= i < highlighted_up_to(spans, text, k).len()
                ==> ((#[trigger] highlighted_up_to(spans, text, k)[i]) as int) < k,
        forall|i: int, j: int|
            0 <= i < j < highlighted_up_to(spans, text, k).len()
                ==> highlighted_up_to(spans, text, k)[i] < highlighted_up_to(spans, text, k)[j],
    decreases k,
{
    if k > 0 {
        lemma_highlighted_in_range(spans, text, k - 1);
        let t = highlighted_up_to(spans, text, k - 1);
        let w = highlighted_up_to(spans, text, k);
        if span_covers(spans, char_offset(text, k - 1)) {
            assert(w == t.push((k - 1) as usize));
            assert forall|i: int, j: int| 0 <= i < j < w.len() implies w[i] < w[j] by {
                if j < w.len() - 1 {
                    assert(w[i] == t[i]);
                    assert(w[j] == t[j]);
                } else {
                    assert(w[i] == t[i]);
                    assert(w[j] == (k - 1) as usize);
                }
            }
        }
    }
}

fn span_covers_exec(spans: &Vec<(usize, usize)>, off: usize) -> (b: bool)
    ensures
        b == span_covers(spans@, off as int),
{
    let mut i: usize = 0;
    while i < spans.len()
        invariant
            0 <= i <= spans@.len(),
            forall|j: int| 0 <= j < i ==> !((#[trigger] spans@[j]).0 <= (off as int) < spans@[j].1),
        decreases spans@.len() - i,
    {
        let (s, e) = spans[i];
        if s <= off && off < e {
            proof {
                assert(spans@[i as int].0 <= (off as int) < spans@[i as int].1);
            }
            return true;
        }
        i = i + 1;
    }
    false
}

/// The character indices of `text` that some match of the matcher covers,
/// in ascending order; the renderer emphasises the characters at these
/// positions.
pub fn highlight_spans(m: &Matcher, text: &str) -> (r: Vec<usize>)
    ensures
        r@ == highlighted_chars(m.pattern(), m.ignores_case(), text@),
        forall|i: int| 0 <= i < r@.len() ==> ((#[trigger] r@[i]) as int) < text@.len(),
        forall|i: int, j: int| 0 <= i < j < r@.len() ==> r@[i] < r@[j],
{
    let spans = matcher_find_spans(m, text);
    let offsets = char_positions(text);
    let ghost sp = spans@;
    let mut r: Vec<usize> = Vec::new();
    let mut k: usize = 0;
    while k < offsets.len()
        invariant
            0 <= k <= offsets@.len(),
            offsets@.len() == text@.len(),
            forall|i: int|
                0 <= i < offsets@.len() ==> #[trigger] offsets@[i] as int == char_offset(
                    text@,
                    i,
                ),
            sp == spans@,
            sp == regex_match_spans(m.pattern(), m.ignores_case(), text@),
            r@ == highlighted_up_to(sp, text@, k as int),
        decreases offsets@.len() - k,
    {
        if span_covers_exec(&spans, offsets[k]) {
            r.push(k);
        }
        k = k + 1;
    }
    proof {
        lemma_highlighted_in_range(sp, text@, text@.len() as int);
    }
    r
}

} // verus!

