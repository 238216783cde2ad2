//! Sentence splitting: a paragraph is cut at the sentence boundaries of
//! `unicode_segmentation`, each sentence is cut again after `?`, `!` or `|`
//! followed by white space, and the pieces are trimmed; empty pieces go.

use vstd::prelude::*;
use unicode_segmentation::UnicodeSegmentation;

verus! {

/// The sentences of `s` by the Unicode sentence-boundary rules, separators
/// included, in order.
pub uninterp spec fn sentence_bounds_of(s: Seq<char>) -> Seq<Seq<char>>;

/// Whether `c` has the Unicode `White_Space` property: tab to carriage
/// return, space, next line, no-break space, ogham space mark, the spaces
/// U+2000 to U+200A, line and paragraph separator, narrow no-break space,
/// medium mathematical space and ideographic space.
pub open spec fn white_space(c: char) -> bool {
    let n = c as int;
    (0x9 <= n <= 0xd) || n == 0x20 || n == 0x85 || n == 0xa0 || n == 0x1680 || (0x2000 <= n
        <= 0x200a) || n == 0x2028 || n == 0x2029 || n == 0x202f || n == 0x205f || n == 0x3000
}

/// The characters of each string.
pub open spec fn strings_view(v: Seq<String>) -> Seq<Seq<char>> {
    v.map_values(|s: String| s@)
}

/// Relies on `UnicodeSegmentation::split_sentence_bounds`: the sentences of
/// `s`, each with its trailing separators, in order; together they are `s`.
#[verifier::external_body]
fn sentence_bounds(s: &str) -> (r: Vec<String>)
    ensures
        strings_view(r@) == sentence_bounds_of(s@),
        strings_view(r@).flatten() == s@,
{
    s.split_sentence_bounds().map(String::from).collect()
}

/// Relies on `char::is_whitespace`: whether `c` has the `White_Space`
/// property, as the Unicode character database lists it.
#[verifier::external_body]
fn is_white_space(c: char) -> (r: bool)
    ensures
        r == white_space(c),
{
    c.is_whitespace()
}

/// Relies on `str::chars`: the characters of `s`, in order.
#[verifier::external_body]
fn chars_of(s: &str) -> (r: Vec<char>)
    ensures
        r@ == s@,
{
    s.chars().collect()
}

/// Relies on `String: FromIterator<char>`: the string of the characters `v`.
#[verifier::external_body]
fn string_of(v: &Vec<char>) -> (r: String)
    ensures
        r@ == v@,
{
    v.iter().collect()
}

/// `s` without its leading white space.
pub open spec fn trim_start(s: Seq<char>) -> Seq<char>
    decreases s.len(),
{
    if s.len() > 0 && white_space(s[0]) {
        trim_start(s.drop_first())
    } else {
        s
    }
}

/// `s` without its trailing white space.
pub open spec fn trim_end(s: Seq<char>) -> Seq<char>
    decreases s.len(),
{
    if s.len() > 0 && white_space(s.last()) {
        trim_end(s.drop_last())
    } else {
        s
    }
}

/// `s` without leading and trailing white space.
pub open spec fn trimmed(s: Seq<char>) -> Seq<char> {
    trim_end(trim_start(s))
}

/// Relies on `str::trim`: `s` without leading and trailing characters of
/// the `White_Space` property.
#[verifier::external_body]
pub(crate) fn trim(s: &str) -> (r: String)
    ensures
        r@ == trimmed(s@),
{
    s.trim().to_string()
}

/// A character after which, followed by white space, a sentence ends.
pub open spec fn is_terminator(c: char) -> bool {
    c == '?' || c == '!' || c == '|'
}

/// `r` with `c` put in front of its first piece.
pub open spec fn prepend(c: Seq<char>, r: Seq<Seq<char>>) -> Seq<Seq<char>> {
    r.update(0, c + r[0])
}

/// The pieces of `s`, where `gap` says that white space after a terminator
/// is being passed over.
pub open spec fn split_from(s: Seq<char>, gap: bool) -> Seq<Seq<char>>
    decreases s.len(),
{
    if s.len() == 0 {
        seq![seq![]]
    } else if gap && white_space(s[0]) {
        split_from(s.drop_first(), true)
    } else if s.len() >= 2 && is_terminator(s[0]) && white_space(s[1]) {
        seq![seq![]] + split_from(s.drop_first().drop_first(), true)
    } else {
        prepend(seq![s[0]], split_from(s.drop_first(), false))
    }
}

/// The pieces of `s` between the places where a terminator is followed by
/// white space; the terminator and the whole run of white space after it
/// belong to no piece.
pub open spec fn split_terminated(s: Seq<char>) -> Seq<Seq<char>> {
    split_from(s, false)
}

/// The non-empty members of `ps`, in order.
pub open spec fn non_empty(ps: Seq<Seq<char>>) -> Seq<Seq<char>>
    decreases ps.len(),
{
    if ps.len() == 0 {
        seq![]
    } else if ps.last().len() == 0 {
        non_empty(ps.drop_last())
    } else {
        non_empty(ps.drop_last()).push(ps.last())
    }
}

/// The sentences that one sentence bound gives.
pub open spec fn pieces_of(bound: Seq<char>) -> Seq<Seq<char>> {
    non_empty(split_terminated(trimmed(bound)).map_values(|p: Seq<char>| trimmed(p)))
}

/// The sentences of the sentence bounds `bounds`, in order.
pub open spec fn sentences_of(bounds: Seq<Seq<char>>) -> Seq<Seq<char>>
    decreases bounds.len(),
{
    if bounds.len() == 0 {
        seq![]
    } else {
        sentences_of(bounds.drop_last()) + pieces_of(bounds.last())
    }
}

proof fn lemma_split_from_nonempty(s: Seq<char>, gap: bool)
    ensures
        split_from(s, gap).len() >= 1,
    decreases s.len(),
{
    if s.len() == 0 {
    } else if gap && white_space(s[0]) {
        lemma_split_from_nonempty(s.drop_first(), true);
    } else if s.len() >= 2 && is_terminator(s[0]) && white_space(s[1]) {
    } else {
        lemma_split_from_nonempty(s.drop_first(), false);
    }
}

/// The pieces of `s` between the places where `?`, `!` or `|` is followed by
/// white space.
fn split_terminated_exec(s: &Vec<char>) -> (r: Vec<Vec<char>>)
    ensures
        r@.map_values(|p: Vec<char>| p@) == split_terminated(s@),
{
    let mut pieces: Vec<Vec<char>> = Vec::new();
    let mut cur: Vec<char> = Vec::new();
    let mut gap = false;
    let mut i: usize = 0;
    proof {
        assert(s@.skip(0) =~= s@);
        lemma_split_from_nonempty(s@, false);
        assert(prepend(seq![], split_from(s@, false)) =~= split_from(s@, false));
        assert(pieces@.map_values(|p: Vec<char>| p@) =~= Seq::<Seq<char>>::empty());
        assert(split_terminated(s@) =~= pieces@.map_values(|p: Vec<char>| p@) + prepend(cur@, split_from(s@.skip(0), gap)));
    }
    while i < s.len()
        invariant
            0 <= i <= s@.len(),
            split_terminated(s@) == pieces@.map_values(|p: Vec<char>| p@) + prepend(
                cur@,
                split_from(s@.skip(i as int), gap),
            ),
        decreases s@.len() - i,
    {
        let ghost rest = s@.skip(i as int);
        let ghost old_pieces = pieces@.map_values(|p: Vec<char>| p@);
        let ghost old_cur = cur@;
        proof {
            assert(rest.drop_first() =~= s@.skip(i + 1));
            assert(rest[0] == s@[i as int]);
            if i + 1 < s@.len() {
                assert(rest[1] == s@[i + 1]);
                assert(rest.drop_first().drop_first() =~= s@.skip(i + 2));
            }
        }
        let c = s[i];
        if gap && is_white_space(c) {
            i = i + 1;
        } else if i + 1 < s.len() && (c == '?' || c == '!' || c == '|') && is_white_space(s[i + 1]) {
            proof {
                let tail = split_from(s@.skip(i + 2), true);
                lemma_split_from_nonempty(s@.skip(i + 2), true);
                assert(prepend(old_cur, seq![seq![]] + tail) =~= seq![old_cur] + tail);
                assert(prepend(seq![], tail) =~= tail);
            }
            pieces.push(cur);
            cur = Vec::new();
            proof {
                let tail = split_from(s@.skip(i + 2), true);
                assert(pieces@.map_values(|p: Vec<char>| p@) =~= old_pieces.push(old_cur));
                assert(old_pieces + (seq![old_cur] + tail) =~= old_pieces.push(old_cur) + prepend(cur@, tail));
            }
            gap = true;
            i = i + 2;
        } else {
            proof {
                lemma_split_from_nonempty(s@.skip(i + 1), false);
                let tail = split_from(s@.skip(i + 1), false);
                assert(old_cur + (seq![c] + tail[0]) =~= old_cur.push(c) + tail[0]);
                assert(prepend(old_cur, prepend(seq![c], tail)) =~= prepend(old_cur.push(c), tail));
            }
            cur.push(c);
            gap = false;
            i = i + 1;
        }
    }
    proof {
        assert(s@.skip(i as int) =~= Seq::<char>::empty());
        assert(prepend(cur@, seq![Seq::<char>::empty()]) =~= seq![cur@]);
    }
    let ghost old_pieces = pieces@.map_values(|p: Vec<char>| p@);
    let ghost old_cur = cur@;
    pieces.push(cur);
    proof {
        assert(pieces@.map_values(|p: Vec<char>| p@) =~= old_pieces.push(old_cur));
        assert(old_pieces + seq![old_cur] =~= old_pieces.push(old_cur));
    }
    pieces
}

/// Splits `paragraphs` into sentences: at the Unicode sentence boundaries,
/// and again after `?`, `!` or `|` followed by white space. The sentences are
/// trimmed, and empty ones are left out.
pub fn split_paragraphs(paragraphs: &str) -> (r: Vec<String>)
    ensures
        strings_view(r@) == sentences_of(sentence_bounds_of(paragraphs@)),
{
    let bounds = sentence_bounds(paragraphs);
    let ghost bv = strings_view(bounds@);
    let mut out: Vec<String> = Vec::new();
    let mut b: usize = 0;
    proof {
        assert(bv.subrange(0, 0) =~= Seq::<Seq<char>>::empty());
        assert(strings_view(out@) =~= Seq::<Seq<char>>::empty());
    }
    while b < bounds.len()
        invariant
            0 <= b <= bounds@.len(),
            bv == strings_view(bounds@),
            bv == sentence_bounds_of(paragraphs@),
            strings_view(out@) == sentences_of(bv.subrange(0, b as int)),
        decreases bounds@.len() - b,
    {
        let sentence = trim(bounds[b].as_str());
        let chars = chars_of(sentence.as_str());
        let parts = split_terminated_exec(&chars);
        let ghost pv = parts@.map_values(|p: Vec<char>| p@);
        let ghost before = strings_view(out@);
        let mut q: usize = 0;
        proof {
            assert(bv[b as int] == bounds@[b as int]@);
            assert(pv.map_values(|p: Seq<char>| trimmed(p)).subrange(0, 0) =~= Seq::<Seq<char>>::empty());
        }
        while q < parts.len()
            invariant
                0 <= q <= parts@.len(),
                pv == parts@.map_values(|p: Vec<char>| p@),
                strings_view(out@) == before + non_empty(pv.map_values(|p: Seq<char>| trimmed(p)).subrange(0, q as int)),
            decreases parts@.len() - q,
        {
            let piece = string_of(&parts[q]);
            let t = trim(piece.as_str());
            let ghost tv = pv.map_values(|p: Seq<char>| trimmed(p));
            proof {
                assert(tv.subrange(0, q + 1).drop_last() =~= tv.subrange(0, q as int));
                assert(tv.subrange(0, q + 1).last() == t@);
            }
            if !t.as_str().is_empty() {
                let ghost old_out = strings_view(out@);
                out.push(t);
                proof {
                    assert(strings_view(out@) =~= old_out.push(t@));
                }
            }
            q = q + 1;
        }
        proof {
            let tv = pv.map_values(|p: Seq<char>| trimmed(p));
            assert(tv.subrange(0, parts@.len() as int) =~= tv);
            assert(bv.subrange(0, b + 1).drop_last() =~= bv.subrange(0, b as int));
            assert(bv.subrange(0, b + 1).last() == bv[b as int]);
            assert(pieces_of(bv[b as int]) == non_empty(tv));
        }
        b = b + 1;
    }
    proof {
        assert(bv.subrange(0, bounds@.len() as int) =~= bv);
    }
    out
}

} // verus!
