//! Character-level helpers: whitespace, trimming and tokenizing over `char` sequences.
use vstd::prelude::*;
use vstd::std_specs::iter::IteratorSpec;

verus! {

/// Unicode `White_Space`, the set that `char::is_whitespace` tests.
pub open spec fn is_space(c: char) -> bool {
    ||| c == ' '
    ||| ('\u{9}' <= c && c <= '\u{d}')
    ||| c == '\u{85}'
    ||| c == '\u{a0}'
    ||| c == '\u{1680}'
    ||| ('\u{2000}' <= c && c <= '\u{200a}')
    ||| c == '\u{2028}'
    ||| c == '\u{2029}'
    ||| c == '\u{202f}'
    ||| c == '\u{205f}'
    ||| c == '\u{3000}'
}

pub open spec fn is_paren(c: char) -> bool {
    c == '(' || c == ')'
}

/// Drops the leading characters that satisfy `p`.
pub open spec fn trim_start_by(s: Seq<char>, p: spec_fn(char) -> bool) -> Seq<char>
    decreases s.len(),
{
    if s.len() > 0 && p(s[0]) {
        trim_start_by(s.drop_first(), p)
    } else {
        s
    }
}

/// Drops the trailing characters that satisfy `p`.
pub open spec fn trim_end_by(s: Seq<char>, p: spec_fn(char) -> bool) -> Seq<char>
    decreases s.len(),
{
    if s.len() > 0 && p(s.last()) {
        trim_end_by(s.drop_last(), p)
    } else {
        s
    }
}

pub open spec fn trim_by(s: Seq<char>, p: spec_fn(char) -> bool) -> Seq<char> {
    trim_end_by(trim_start_by(s, p), p)
}

/// `s` with surrounding whitespace removed, as `str::trim` does.
pub open spec fn trim(s: Seq<char>) -> Seq<char> {
    trim_by(s, |c: char| is_space(c))
}

/// `s` with every `(` and `)` at either end removed, as `trim_matches` does.
pub open spec fn strip_parens(s: Seq<char>) -> Seq<char> {
    trim_by(s, |c: char| is_paren(c))
}

/// The maximal runs of non-whitespace characters of `s`, in order.
pub open spec fn tokens(s: Seq<char>) -> Seq<Seq<char>>
    decreases s.len(),
{
    if s.len() == 0 {
        seq![]
    } else {
        let t = tokens(s.drop_last());
        if is_space(s.last()) {
            t
        } else if s.len() >= 2 && !is_space(s[s.len() - 2]) {
            t.update(t.len() - 1, t.last().push(s.last()))
        } else {
            t.push(seq![s.last()])
        }
    }
}

pub fn is_space_char(c: char) -> (r: bool)
    ensures
        r == is_space(c),
{
    c == ' ' || ('\u{9}' <= c && c <= '\u{d}') || c == '\u{85}' || c == '\u{a0}' || c == '\u{1680}'
        || ('\u{2000}' <= c && c <= '\u{200a}') || c == '\u{2028}' || c == '\u{2029}' || c
        == '\u{202f}' || c == '\u{205f}' || c == '\u{3000}'
}

fn trims(c: char, parens: bool) -> (r: bool)
    ensures
        r == (if parens {
            is_paren(c)
        } else {
            is_space(c)
        }),
{
    if parens {
        c == '(' || c == ')'
    } else {
        is_space_char(c)
    }
}

/// Narrows `[lo, hi)` of `cs` to its trimmed part: whitespace, or `(` and `)` when `parens`.
pub fn trim_span(cs: &Vec<char>, lo: usize, hi: usize, parens: bool) -> (r: (usize, usize))
    requires
        lo <= hi <= cs@.len(),
    ensures
        lo <= r.0 <= r.1 <= hi,
        parens ==> cs@.subrange(r.0 as int, r.1 as int) == strip_parens(
            cs@.subrange(lo as int, hi as int),
        ),
        !parens ==> cs@.subrange(r.0 as int, r.1 as int) == trim(
            cs@.subrange(lo as int, hi as int),
        ),
{
    let ghost p: spec_fn(char) -> bool = if parens {
        |c: char| is_paren(c)
    } else {
        |c: char| is_space(c)
    };
    let ghost whole = cs@.subrange(lo as int, hi as int);
    let mut a: usize = lo;
    while a < hi && trims(cs[a], parens)
        invariant
            lo <= a <= hi <= cs@.len(),
            forall|ch: char| #[trigger] p(ch) == (if parens { is_paren(ch) } else { is_space(ch) }),
            trim_start_by(whole, p) == trim_start_by(cs@.subrange(a as int, hi as int), p),
        decreases hi - a,
    {
        assert(cs@.subrange(a as int, hi as int).drop_first() =~= cs@.subrange(
            a + 1,
            hi as int,
        ));
        a = a + 1;
    }
    assert(trim_start_by(cs@.subrange(a as int, hi as int), p) == cs@.subrange(a as int, hi as int));
    let mut b: usize = hi;
    while b > a && trims(cs[b - 1], parens)
        invariant
            lo <= a <= b <= hi <= cs@.len(),
            forall|ch: char| #[trigger] p(ch) == (if parens { is_paren(ch) } else { is_space(ch) }),
            trim_by(whole, p) == trim_end_by(cs@.subrange(a as int, b as int), p),
        decreases b - a,
    {
        assert(cs@.subrange(a as int, b as int).drop_last() =~= cs@.subrange(
            a as int,
            b - 1,
        ));
        b = b - 1;
    }
    proof {
        let q = cs@.subrange(a as int, b as int);
        assert(trim_end_by(q, p) == q);
        if parens {
            assert(p == (|c: char| is_paren(c)));
        } else {
            assert(p == (|c: char| is_space(c)));
        }
    }
    (a, b)
}

/// Relies on `String::push`: appends one character at the end.
#[verifier::external_body]
fn push_char(s: &mut String, c: char)
    ensures
        final(s)@ == old(s)@.push(c),
{
    s.push(c)
}

/// The characters of `s`, in order.
pub fn chars_of(s: &str) -> (r: Vec<char>)
    ensures
        r@ == s@,
{
    let mut v: Vec<char> = Vec::new();
    let mut it = s.chars();
    loop
        invariant
            v@.len() <= s@.len(),
            it.remaining() == s@.subrange(v@.len() as int, s@.len() as int),
            v@ == s@.subrange(0, v@.len() as int),
            it.obeys_prophetic_iter_laws(),
            it.decrease() is Some,
        ensures
            v@ == s@,
        decreases it.decrease()->0,
    {
        match it.next() {
            Some(ch) => {
                proof {
                    let k = v@.len() as int;
                    assert(s@.subrange(k, s@.len() as int)[0] == s@[k]);
                    assert(s@.subrange(k, s@.len() as int).drop_first() =~= s@.subrange(
                        k + 1,
                        s@.len() as int,
                    ));
                }
                v.push(ch);
                assert(v@ =~= s@.subrange(0, v@.len() as int));
            },
            None => {
                assert(v@ =~= s@);
                break;
            },
        }
    }
    v
}

/// A `String` holding `cs[lo..hi]`.
pub fn string_of_span(cs: &Vec<char>, lo: usize, hi: usize) -> (r: String)
    requires
        lo <= hi <= cs@.len(),
    ensures
        r@ == cs@.subrange(lo as int, hi as int),
{
    let mut s = String::new();
    let mut i: usize = lo;
    while i < hi
        invariant
            lo <= i <= hi <= cs@.len(),
            s@ == cs@.subrange(lo as int, i as int),
        decreases hi - i,
    {
        push_char(&mut s, cs[i]);
        assert(cs@.subrange(lo as int, i + 1) =~= cs@.subrange(lo as int, i as int).push(cs@[i as int]));
        i = i + 1;
    }
    s
}

/// The spans of the whitespace-separated tokens of `cs[lo..hi]`.
pub fn token_spans(cs: &Vec<char>, lo: usize, hi: usize) -> (r: Vec<(usize, usize)>)
    requires
        lo <= hi <= cs@.len(),
    ensures
        r@.len() == tokens(cs@.subrange(lo as int, hi as int)).len(),
        forall|k: int|
            0 <= k < r@.len() ==> lo <= (#[trigger] r@[k]).0 <= r@[k].1 <= hi
                && cs@.subrange(r@[k].0 as int, r@[k].1 as int) == tokens(
                cs@.subrange(lo as int, hi as int),
            )[k],
{
    let mut spans: Vec<(usize, usize)> = Vec::new();
    let mut i: usize = lo;
    while i < hi
        invariant
            lo <= i <= hi <= cs@.len(),
            spans@.len() == tokens(cs@.subrange(lo as int, i as int)).len(),
            forall|k: int|
                0 <= k < spans@.len() ==> lo <= (#[trigger] spans@[k]).0 <= spans@[k].1 <= i
                    && cs@.subrange(spans@[k].0 as int, spans@[k].1 as int) == tokens(
                    cs@.subrange(lo as int, i as int),
                )[k],
            i > lo && !is_space(cs@[i - 1]) ==> spans@.len() > 0 && spans@.last().1 == i,
        decreases hi - i,
    {
        let ghost prev = cs@.subrange(lo as int, i as int);
        let ghost cur = cs@.subrange(lo as int, i + 1);
        assert(cur.drop_last() =~= prev);
        let ghost before = spans@;
        let ch = cs[i];
        if is_space_char(ch) {
        } else if i > lo && !is_space_char(cs[i - 1]) {
            let last = spans.pop().unwrap();
            spans.push((last.0, i + 1));
            proof {
                let t = tokens(prev);
                assert(cur[cur.len() - 2] == cs@[i - 1]);
                assert(cs@.subrange(last.0 as int, i + 1) =~= cs@.subrange(last.0 as int, i as int).push(ch));
                assert forall|k: int| 0 <= k < spans@.len() implies lo <= (#[trigger] spans@[k]).0 <= spans@[k].1 <= i + 1
                    && cs@.subrange(spans@[k].0 as int, spans@[k].1 as int) == tokens(cur)[k] by {
                    if k < spans@.len() - 1 {
                        assert(spans@[k] == before[k]);
                    }
                }
            }
        } else {
            spans.push((i, i + 1));
            proof {
                assert(cs@.subrange(i as int, i + 1) =~= seq![ch]);
                assert forall|k: int| 0 <= k < spans@.len() implies lo <= (#[trigger] spans@[k]).0 <= spans@[k].1 <= i + 1
                    && cs@.subrange(spans@[k].0 as int, spans@[k].1 as int) == tokens(cur)[k] by {
                    if k < spans@.len() - 1 {
                        assert(spans@[k] == before[k]);
                    }
                }
            }
        }
        i = i + 1;
    }
    spans
}

/// A timestamp token reads the same inside parentheses as without them.
pub proof fn lemma_parens_optional(s: Seq<char>)
    requires
        s.len() > 0 ==> !is_paren(s[0]) && !is_paren(s.last()),
    ensures
        strip_parens(seq!['('] + s + seq![')']) == strip_parens(s),
        strip_parens(s) == s,
{
    let p = |c: char| is_paren(c);
    let w = seq!['('] + s + seq![')'];
    let u = s + seq![')'];
    assert(w[0] == '(' && p(w[0]));
    assert(w.drop_first() =~= u);
    assert(trim_start_by(w, p) == trim_start_by(u, p));
    assert(u.last() == ')' && p(u.last()));
    if s.len() == 0 {
        assert(u[0] == ')' && p(u[0]));
        assert(u.drop_first() =~= Seq::<char>::empty());
        assert(trim_start_by(u, p) == trim_start_by(Seq::<char>::empty(), p));
        assert(trim_start_by(s, p) == s);
    } else {
        assert(u[0] == s[0]);
        assert(trim_start_by(u, p) == u);
        assert(trim_start_by(s, p) == s);
        assert(u.drop_last() =~= s);
        assert(trim_end_by(u, p) == trim_end_by(s, p));
        assert(trim_end_by(s, p) == s);
    }
}

} // verus!
