//! Line splitting and substring search over UTF-8 text.
//!
//! Text is modelled by its UTF-8 bytes (`spec_bytes`): a line ends at each
//! newline byte, and a query occurs in a line when its bytes appear in the
//! line's bytes at some offset.

use vstd::prelude::*;
use vstd::string::StringSliceAdditionalSpecFns;
use vstd::utf8::{
    decode_utf8, encode_utf8, encode_utf8_decode_utf8, encode_utf8_valid_utf8, is_char_boundary,
    is_char_boundary_iff_not_is_continuation_byte, length_of_first_scalar, pop_first_scalar,
    valid_utf8, valid_utf8_split,
};

verus! {

/// True when `needle` appears in `hay` starting at offset `i`.
pub open spec fn occurs_at(hay: Seq<u8>, needle: Seq<u8>, i: int) -> bool {
    0 <= i && i + needle.len() <= hay.len() && hay.subrange(i, i + needle.len()) == needle
}

/// True when `needle` appears somewhere in `hay`; the empty needle appears everywhere.
pub open spec fn has_substring(hay: Seq<u8>, needle: Seq<u8>) -> bool {
    exists|i: int| occurs_at(hay, needle, i)
}

fn occurs_at_exec(hay: &[u8], needle: &[u8], i: usize) -> (r: bool)
    requires
        i + needle@.len() <= hay@.len(),
    ensures
        r == occurs_at(hay@, needle@, i as int),
{
    let hay_len = hay.len();
    let mut j: usize = 0;
    while j < needle.len()
        invariant
            hay_len == hay@.len(),
            i + needle@.len() <= hay@.len(),
            j <= needle@.len(),
            forall|k: int| 0 <= k < j ==> hay@[i + k] == needle@[k],
        decreases needle@.len() - j,
    {
        if hay[i + j] != needle[j] {
            assert(hay@.subrange(i as int, i + needle@.len())[j as int] != needle@[j as int]);
            return false;
        }
        j = j + 1;
    }
    assert(hay@.subrange(i as int, i + needle@.len()) =~= needle@);
    true
}

/// Whether `query` occurs in `line`, comparing bytes exactly.
pub fn contains_text(line: &str, query: &str) -> (r: bool)
    ensures
        r == has_substring(line.spec_bytes(), query.spec_bytes()),
{
    let hay = line.as_bytes();
    let needle = query.as_bytes();
    if needle.len() > hay.len() {
        assert forall|i: int| !occurs_at(hay@, needle@, i) by {}
        return false;
    }
    let last = hay.len() - needle.len();
    let mut i: usize = 0;
    loop
        invariant
            hay@ == line.spec_bytes(),
            needle@ == query.spec_bytes(),
            last == hay@.len() - needle@.len(),
            i <= last,
            forall|k: int| 0 <= k < i ==> !occurs_at(hay@, needle@, k),
        ensures
            forall|k: int| 0 <= k <= last ==> !occurs_at(hay@, needle@, k),
        decreases last - i,
    {
        if occurs_at_exec(hay, needle, i) {
            assert(occurs_at(hay@, needle@, i as int));
            return true;
        }
        if i == last {
            break;
        }
        i = i + 1;
    }
    assert forall|k: int| !occurs_at(hay@, needle@, k) by {
        if 0 <= k <= last {
        }
    }
    false
}

/// The byte that ends a line.
pub const NEWLINE: u8 = 10;

/// Length of the first line of `b`: the offset of its first newline byte,
/// or the whole length when it holds none.
pub open spec fn line_len(b: Seq<u8>) -> int
    decreases b.len(),
{
    if b.len() == 0 {
        0
    } else if b[0] == NEWLINE {
        0
    } else {
        1 + line_len(b.drop_first())
    }
}

/// The lines of `b`: the pieces between newline bytes, without the newlines.
/// A final newline ends the last line and starts no empty one; an empty text
/// has no lines.
pub open spec fn lines_of(b: Seq<u8>) -> Seq<Seq<u8>>
    decreases b.len(),
{
    if b.len() == 0 {
        Seq::empty()
    } else {
        let k = line_len(b);
        if 0 <= k < b.len() {
            seq![b.subrange(0, k)] + lines_of(b.subrange(k + 1, b.len() as int))
        } else {
            seq![b]
        }
    }
}

/// The bytes of each string slice of `v`, in order.
pub open spec fn bytes_of_each(v: Seq<&str>) -> Seq<Seq<u8>> {
    v.map_values(|l: &str| l.spec_bytes())
}

proof fn lemma_line_len(b: Seq<u8>, k: int)
    requires
        0 <= k <= b.len(),
        forall|j: int| 0 <= j < k ==> b[j] != NEWLINE,
        k < b.len() ==> b[k] == NEWLINE,
    ensures
        line_len(b) == k,
    decreases k,
{
    if k > 0 {
        lemma_line_len(b.drop_first(), k - 1);
    }
}

/// Splits `contents` into its lines (see `lines_of`), each a slice of `contents`.
pub fn split_lines<'a>(contents: &'a str) -> (r: Vec<&'a str>)
    ensures
        bytes_of_each(r@) == lines_of(contents.spec_bytes()),
{
    let mut rest: &'a str = contents;
    let mut out: Vec<&'a str> = Vec::new();
    loop
        invariant_except_break
            lines_of(contents.spec_bytes()) == bytes_of_each(out@) + lines_of(rest.spec_bytes()),
        ensures
            lines_of(contents.spec_bytes()) == bytes_of_each(out@),
        decreases rest.spec_bytes().len(),
    {
        let bytes = rest.as_bytes();
        let len = bytes.len();
        if len == 0 {
            assert(bytes_of_each(out@) + lines_of(rest.spec_bytes()) =~= bytes_of_each(out@));
            break;
        }
        let mut k: usize = 0;
        while k < len && bytes[k] != NEWLINE
            invariant
                len == bytes@.len(),
                k <= len,
                forall|j: int| 0 <= j < k ==> bytes@[j] != NEWLINE,
            decreases len - k,
        {
            k = k + 1;
        }
        proof {
            lemma_line_len(bytes@, k as int);
        }
        let ghost before = out@;
        if k == len {
            out.push(rest);
            assert(bytes_of_each(out@) =~= bytes_of_each(before) + seq![rest.spec_bytes()]);
            assert(bytes_of_each(out@) + lines_of(rest.spec_bytes()).drop_first()
                =~= bytes_of_each(before) + lines_of(rest.spec_bytes()));
            break;
        }
        proof {
            let b = bytes@;
            encode_utf8_valid_utf8(rest@);
            is_char_boundary_iff_not_is_continuation_byte(b, k as int);
            valid_utf8_split(b, k as int);
            let t = b.subrange(k as int, len as int);
            assert(t[0] == NEWLINE);
            assert(length_of_first_scalar(t) == 1);
            assert(valid_utf8(pop_first_scalar(t)));
            assert(is_char_boundary(pop_first_scalar(t), 0));
            reveal_with_fuel(is_char_boundary, 2);
            assert(is_char_boundary(t, 1));
        }
        let (line, tail) = rest.split_at(k);
        let (_newline, after) = tail.split_at(1);
        out.push(line);
        assert(bytes_of_each(out@) =~= bytes_of_each(before) + seq![line.spec_bytes()]);
        assert(after.spec_bytes() =~= bytes@.subrange(k + 1, len as int));
        assert(lines_of(bytes@) == seq![bytes@.subrange(0, k as int)] + lines_of(
            bytes@.subrange(k + 1, len as int),
        ));
        assert(bytes_of_each(out@) + lines_of(after.spec_bytes()) =~= bytes_of_each(before)
            + lines_of(bytes@));
        rest = after;
    }
    out
}

/// The lowercase form of a text, as `str::to_lowercase` computes it.
pub uninterp spec fn lower_of(s: Seq<char>) -> Seq<char>;

/// Relies on `str::to_lowercase`: the result depends on the characters alone,
/// and the empty string stays empty.
#[verifier::external_body]
fn lowercase(s: &str) -> (r: String)
    ensures
        r@ == lower_of(s@),
        s@.len() == 0 ==> r@.len() == 0,
{
    s.to_lowercase()
}

/// The UTF-8 bytes of the lowercase form of the text whose bytes are `b`.
pub open spec fn folded(b: Seq<u8>) -> Seq<u8> {
    encode_utf8(lower_of(decode_utf8(b)))
}

/// Whether a line is selected by `query`: an exact substring test when
/// `case_sensitive`, else a substring test on the lowercase forms of both.
pub open spec fn line_matches(line: Seq<u8>, query: Seq<u8>, case_sensitive: bool) -> bool {
    if case_sensitive {
        has_substring(line, query)
    } else {
        has_substring(folded(line), folded(query))
    }
}

/// The lines of `contents` that `query` selects, in their order in `contents`.
pub open spec fn matching_lines(contents: Seq<u8>, query: Seq<u8>, case_sensitive: bool) -> Seq<
    Seq<u8>,
> {
    lines_of(contents).filter(|l: Seq<u8>| line_matches(l, query, case_sensitive))
}

proof fn lemma_filter_keeps_all(s: Seq<Seq<u8>>, pred: spec_fn(Seq<u8>) -> bool)
    requires
        forall|i: int| 0 <= i < s.len() ==> pred(s[i]),
    ensures
        s.filter(pred) == s,
    decreases s.len(),
{
    if s.len() > 0 {
        lemma_filter_keeps_all(s.drop_last(), pred);
        s.drop_last().lemma_filter_push(s.last(), pred);
        assert(s.drop_last().push(s.last()) =~= s);
    }
}

/// The lines of `contents` that contain `query`, compared byte for byte.
pub fn search<'a>(query: &str, contents: &'a str) -> (r: Vec<&'a str>)
    ensures
        bytes_of_each(r@) == matching_lines(contents.spec_bytes(), query.spec_bytes(), true),
        query@.len() == 0 ==> bytes_of_each(r@) == lines_of(contents.spec_bytes()),
{
    let lines = split_lines(contents);
    let ghost pred = |l: Seq<u8>| line_matches(l, query.spec_bytes(), true);
    let mut out: Vec<&'a str> = Vec::new();
    let mut i: usize = 0;
    while i < lines.len()
        invariant
            bytes_of_each(lines@) == lines_of(contents.spec_bytes()),
            pred == (|l: Seq<u8>| line_matches(l, query.spec_bytes(), true)),
            i <= lines@.len(),
            bytes_of_each(out@) == bytes_of_each(lines@.take(i as int)).filter(pred),
        decreases lines@.len() - i,
    {
        let line = lines[i];
        let found = contains_text(line, query);
        proof {
            bytes_of_each(lines@.take(i as int)).lemma_filter_push(line.spec_bytes(), pred);
            assert(bytes_of_each(lines@.take(i + 1)) =~= bytes_of_each(lines@.take(i as int)).push(
                line.spec_bytes(),
            ));
        }
        let ghost before = out@;
        if found {
            out.push(line);
            assert(bytes_of_each(out@) =~= bytes_of_each(before).push(line.spec_bytes()));
        }
        i = i + 1;
    }
    assert(lines@.take(i as int) =~= lines@);
    proof {
        if query@.len() == 0 {
            assert(query.spec_bytes().len() == 0);
            assert forall|l: Seq<u8>| #[trigger] pred(l) by {
                assert(l.subrange(0, 0) =~= query.spec_bytes());
                assert(occurs_at(l, query.spec_bytes(), 0));
            }
            lemma_filter_keeps_all(lines_of(contents.spec_bytes()), pred);
        }
    }
    out
}

/// The lines of `contents` that contain `query` once both are lowercased.
pub fn search_case_insensitive<'a>(query: &str, contents: &'a str) -> (r: Vec<&'a str>)
    ensures
        bytes_of_each(r@) == matching_lines(contents.spec_bytes(), query.spec_bytes(), false),
        query@.len() == 0 ==> bytes_of_each(r@) == lines_of(contents.spec_bytes()),
{
    let lower_query = lowercase(query);
    let folded_query = lower_query.as_str();
    proof {
        encode_utf8_decode_utf8(query@);
    }
    let lines = split_lines(contents);
    let ghost pred = |l: Seq<u8>| line_matches(l, query.spec_bytes(), false);
    let mut out: Vec<&'a str> = Vec::new();
    let mut i: usize = 0;
    while i < lines.len()
        invariant
            bytes_of_each(lines@) == lines_of(contents.spec_bytes()),
            pred == (|l: Seq<u8>| line_matches(l, query.spec_bytes(), false)),
            folded_query.spec_bytes() == folded(query.spec_bytes()),
            i <= lines@.len(),
            bytes_of_each(out@) == bytes_of_each(lines@.take(i as int)).filter(pred),
        decreases lines@.len() - i,
    {
        let line = lines[i];
        let lower_line = lowercase(line);
        let found = contains_text(lower_line.as_str(), folded_query);
        proof {
            encode_utf8_decode_utf8(line@);
            bytes_of_each(lines@.take(i as int)).lemma_filter_push(line.spec_bytes(), pred);
            assert(bytes_of_each(lines@.take(i + 1)) =~= bytes_of_each(lines@.take(i as int)).push(
                line.spec_bytes(),
            ));
        }
        let ghost before = out@;
        if found {
            out.push(line);
            assert(bytes_of_each(out@) =~= bytes_of_each(before).push(line.spec_bytes()));
        }
        i = i + 1;
    }
    assert(lines@.take(i as int) =~= lines@);
    proof {
        if query@.len() == 0 {
            assert(folded_query.spec_bytes().len() == 0);
            assert forall|l: Seq<u8>| #[trigger] pred(l) by {
                assert(folded(l).subrange(0, 0) =~= folded_query.spec_bytes());
                assert(occurs_at(folded(l), folded_query.spec_bytes(), 0));
            }
            lemma_filter_keeps_all(lines_of(contents.spec_bytes()), pred);
        }
    }
    out
}

/// A search is repeatable: two results of the same search on the same text
/// hold the same lines in the same order, each of them a line that the query
/// selects.
pub proof fn lemma_search_repeatable(
    contents: Seq<u8>,
    query: Seq<u8>,
    case_sensitive: bool,
    first: Seq<&str>,
    second: Seq<&str>,
)
    requires
        bytes_of_each(first) == matching_lines(contents, query, case_sensitive),
        bytes_of_each(second) == matching_lines(contents, query, case_sensitive),
    ensures
        first.len() == second.len(),
        forall|i: int|
            0 <= i < first.len() ==> #[trigger] first[i].spec_bytes() == second[i].spec_bytes(),
        forall|i: int|
            0 <= i < first.len() ==> line_matches(
                #[trigger] first[i].spec_bytes(),
                query,
                case_sensitive,
            ),
{
    let pred = |l: Seq<u8>| line_matches(l, query, case_sensitive);
    assert(first.len() == bytes_of_each(first).len());
    assert(second.len() == bytes_of_each(second).len());
    assert forall|i: int| 0 <= i < first.len() implies line_matches(
        #[trigger] first[i].spec_bytes(),
        query,
        case_sensitive,
    ) by {
        assert(bytes_of_each(first)[i] == first[i].spec_bytes());
        lines_of(contents).lemma_filter_pred(pred, i);
    }
    assert forall|i: int| 0 <= i < first.len() implies #[trigger] first[i].spec_bytes()
        == second[i].spec_bytes() by {
        assert(bytes_of_each(first)[i] == bytes_of_each(second)[i]);
    }
}

} // verus!
