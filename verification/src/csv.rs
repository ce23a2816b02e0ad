//! The delimited-text side of the index: splitting a line into fields,
//! indexing a source text line by line, and reading a recorded byte range
//! back out of it.
//!
//! Offsets and lengths are byte counts of the UTF-8 encoding of the text,
//! so a range recorded here can be handed to a plain seek-and-read against
//! the file the text came from.

use vstd::prelude::*;
use vstd::string::{StrSliceExecFns, StringSliceAdditionalSpecFns};
use crate::btree::{BTree, IndexError};
use crate::key::Key;

verus! {

/// The first comma-separated field of `s`: everything before the first
/// comma, or all of `s` when it has none.
pub open spec fn first_field(s: Seq<char>) -> Seq<char>
    decreases s.len(),
{
    if s.len() == 0 {
        Seq::empty()
    } else if s[0] == ',' {
        Seq::empty()
    } else {
        seq![s[0]] + first_field(s.drop_first())
    }
}

/// What follows the first comma of `s`, if `s` has one.
pub open spec fn rest_fields(s: Seq<char>) -> Option<Seq<char>>
    decreases s.len(),
{
    if s.len() == 0 {
        None
    } else if s[0] == ',' {
        Some(s.drop_first())
    } else {
        rest_fields(s.drop_first())
    }
}

/// Field number `n` of `s` split at commas; every text has a field `0`, and
/// none past its last comma.
pub open spec fn nth_field(s: Seq<char>, n: int) -> Option<Seq<char>>
    decreases n,
{
    if n < 0 {
        None
    } else if n == 0 {
        Some(first_field(s))
    } else {
        match rest_fields(s) {
            None => None,
            Some(r) => nth_field(r, n - 1),
        }
    }
}

/// Where the first comma sits decides both the first field and the rest.
proof fn lemma_field_split(s: Seq<char>, d: int)
    requires
        0 <= d <= s.len(),
        forall|j: int| 0 <= j < d ==> s[j] != ',',
        d < s.len() ==> s[d] == ',',
    ensures
        first_field(s) == s.subrange(0, d),
        rest_fields(s) == if d < s.len() {
            Some(s.skip(d + 1))
        } else {
            None
        },
    decreases d,
{
    if s.len() == 0 {
        assert(first_field(s) =~= s.subrange(0, d));
    } else if s[0] == ',' {
        assert(d == 0);
        assert(first_field(s) =~= s.subrange(0, 0));
        assert(s.drop_first() =~= s.skip(1));
    } else {
        assert(d >= 1);
        let rest = s.drop_first();
        assert(forall|j: int| 0 <= j < d - 1 ==> rest[j] == #[trigger] s[j + 1]);
        assert(d - 1 < rest.len() ==> rest[d - 1] == s[d]);
        lemma_field_split(rest, d - 1);
        assert(first_field(s) =~= s.subrange(0, d)) by {
            assert(first_field(s) == seq![s[0]] + rest.subrange(0, d - 1));
        }
        if d < s.len() {
            assert(rest.skip(d - 1 + 1) =~= s.skip(d + 1));
        }
    }
}

/// The comma-separated field with index `posic` of `buf`, if `buf` has that
/// many fields; every text has a field `0`.
pub fn get_key<'a>(posic: usize, buf: &'a str) -> (field: Option<&'a str>)
    ensures
        match field {
            Some(f) => nth_field(buf@, posic as int) == Some(f@),
            None => nth_field(buf@, posic as int) is None,
        },
{
    let len = buf.unicode_len();
    let mut pos: usize = 0;
    let mut remaining: usize = posic;
    proof {
        assert(buf@.skip(0) =~= buf@);
    }
    loop
        invariant
            pos <= len,
            len == buf@.len(),
            nth_field(buf@, posic as int) == nth_field(buf@.skip(pos as int), remaining as int),
        decreases remaining,
    {
        let ghost suffix = buf@.skip(pos as int);
        let mut i: usize = pos;
        while i < len && buf.get_char(i) != ','
            invariant
                pos <= i <= len,
                len == buf@.len(),
                forall|j: int| pos <= j < i ==> buf@[j] != ',',
            decreases len - i,
        {
            i = i + 1;
        }
        proof {
            assert(forall|j: int| 0 <= j < i - pos ==> suffix[j] == #[trigger] buf@[j + pos]);
            lemma_field_split(suffix, i - pos);
        }
        if remaining == 0 {
            let f = buf.substring_char(pos, i);
            proof {
                assert(f@ =~= suffix.subrange(0, i - pos));
            }
            return Some(f);
        }
        if i == len {
            return None;
        }
        proof {
            assert(buf@.skip(i + 1) =~= suffix.skip(i - pos + 1));
        }
        pos = i + 1;
        remaining = remaining - 1;
    }
}

/// The length in bytes of the UTF-8 encoding of `s`.
pub open spec fn byte_len(s: Seq<char>) -> int {
    vstd::utf8::encode_utf8(s).len() as int
}

/// The byte offset at which character `i` of `s` starts.
pub open spec fn byte_pos(s: Seq<char>, i: int) -> int {
    byte_len(s.subrange(0, i))
}

/// The encoding of a concatenation is the concatenation of the encodings.
proof fn lemma_encode_concat(a: Seq<char>, b: Seq<char>)
    ensures
        vstd::utf8::encode_utf8(a + b) == vstd::utf8::encode_utf8(a) + vstd::utf8::encode_utf8(
            b,
        ),
    decreases a.len(),
{
    if a.len() == 0 {
        assert(a + b =~= b);
        assert(vstd::utf8::encode_utf8(a) + vstd::utf8::encode_utf8(b)
            =~= vstd::utf8::encode_utf8(b));
    } else {
        assert((a + b).drop_first() =~= a.drop_first() + b);
        assert((a + b)[0] == a[0]);
        lemma_encode_concat(a.drop_first(), b);
        assert(vstd::utf8::encode_utf8(a + b) =~= vstd::utf8::encode_utf8(a)
            + vstd::utf8::encode_utf8(b));
    }
}

/// Each character occupies one to four bytes.
proof fn lemma_char_width(s: Seq<char>, i: int)
    requires
        0 <= i < s.len(),
    ensures
        1 <= byte_len(s.subrange(i, i + 1)) <= 4,
{
    let single = s.subrange(i, i + 1);
    assert(single.drop_first() =~= Seq::<char>::empty());
    assert(vstd::utf8::encode_utf8(Seq::<char>::empty()) =~= Seq::<u8>::empty());
    assert(vstd::utf8::encode_utf8(single) =~= vstd::utf8::encode_scalar(single[0] as u32));
}

/// Byte offsets grow one character at a time by that character's width.
proof fn lemma_byte_pos_step(s: Seq<char>, i: int)
    requires
        0 <= i < s.len(),
    ensures
        byte_pos(s, i + 1) == byte_pos(s, i) + byte_len(s.subrange(i, i + 1)),
{
    assert(s.subrange(0, i + 1) =~= s.subrange(0, i) + s.subrange(i, i + 1));
    lemma_encode_concat(s.subrange(0, i), s.subrange(i, i + 1));
}

/// Byte offsets are strictly increasing in the character index.
proof fn lemma_byte_pos_mono(s: Seq<char>, i: int, j: int)
    requires
        0 <= i <= j <= s.len(),
    ensures
        byte_pos(s, i) + (j - i) <= byte_pos(s, j),
    decreases j - i,
{
    if i < j {
        lemma_byte_pos_mono(s, i + 1, j);
        lemma_byte_pos_step(s, i);
        lemma_char_width(s, i);
    }
}

/// The whole text's byte length is the offset one past its last character.
proof fn lemma_byte_pos_total(s: Seq<char>)
    ensures
        byte_pos(s, s.len() as int) == byte_len(s),
{
    assert(s.subrange(0, s.len() as int) =~= s);
}

/// The characters of `s` up to and including its first newline — one line
/// of input — or all of `s` when no newline is left.
pub open spec fn line_len(s: Seq<char>) -> int
    decreases s.len(),
{
    if s.len() == 0 {
        0
    } else if s[0] == '\n' {
        1
    } else {
        1 + line_len(s.drop_first())
    }
}

/// Where the first newline sits decides the length of the first line.
proof fn lemma_line_len_at(s: Seq<char>, d: int)
    requires
        0 <= d <= s.len(),
        forall|j: int| 0 <= j < d ==> s[j] != '\n',
        d < s.len() ==> s[d] == '\n',
    ensures
        line_len(s) == if d < s.len() {
            d + 1
        } else {
            s.len() as int
        },
    decreases d,
{
    if s.len() == 0 {
    } else if s[0] == '\n' {
        assert(d == 0);
    } else {
        assert(d >= 1);
        let rest = s.drop_first();
        assert(forall|j: int| 0 <= j < d - 1 ==> rest[j] == #[trigger] s[j + 1]);
        assert(d - 1 < rest.len() ==> rest[d - 1] == s[d]);
        lemma_line_len_at(rest, d - 1);
    }
}

/// What one record of the index says of the record it was made from: the
/// key's characters and the recorded byte range, as plain numbers.
pub open spec fn rec_view(k: Key) -> (Seq<char>, int, int) {
    (k.value@, k.position.0 as int, k.position.1 as int)
}

/// The views of a whole sequence of records.
pub open spec fn rec_views(ks: Seq<Key>) -> Seq<(Seq<char>, int, int)> {
    ks.map_values(|k: Key| rec_view(k))
}

/// One record per line of `s` starting at byte offset `off`: the line's
/// first comma-separated field, the line's starting byte offset, and its
/// byte length, terminator included.
pub open spec fn line_records(s: Seq<char>, off: int) -> Seq<(Seq<char>, int, int)>
    decreases s.len(),
{
    if s.len() == 0 {
        Seq::empty()
    } else {
        let l0 = line_len(s);
        let l = if 1 <= l0 <= s.len() {
            l0
        } else {
            s.len() as int
        };
        let line = s.subrange(0, l);
        seq![(first_field(line), off, byte_len(line))] + line_records(
            s.skip(l),
            off + byte_len(line),
        )
    }
}

/// A byte range carves characters `i..j` out of `s` exactly when its two
/// ends are the byte offsets of `i` and `j`.
pub open spec fn range_ok(s: Seq<char>, off: int, len: int) -> bool {
    exists|i: int, j: int|
        0 <= i <= j <= s.len() && byte_pos(s, i) == off && byte_pos(s, j) == off + len
}

/// Read the text at a recorded byte range back out of the source text:
/// exactly the characters whose encoding occupies bytes
/// `position.0 .. position.0 + position.1`. A range that runs past the end
/// of the source cannot be read in full and is an I/O fault; one whose ends
/// fall inside a character's encoding does not decode as text.
pub fn read_range(source: &str, position: (u64, u64)) -> (r: Result<String, IndexError>)
    requires
        byte_len(source@) <= usize::MAX,
    ensures
        position.0 + position.1 > byte_len(source@) ==> (r matches Err(e) && e
            == IndexError::Io),
        position.0 + position.1 <= byte_len(source@) && range_ok(
            source@,
            position.0 as int,
            position.1 as int,
        ) ==> r is Ok,
        position.0 + position.1 <= byte_len(source@) && !range_ok(
            source@,
            position.0 as int,
            position.1 as int,
        ) ==> (r matches Err(e) && e == IndexError::Decode),
        r matches Ok(text) ==> exists|i: int, j: int|
            0 <= i <= j <= source@.len() && byte_pos(source@, i) == position.0 && byte_pos(
                source@,
                j,
            ) == position.0 + position.1 && text@ == source@.subrange(i, j),
{
    let (off, len) = position;
    let total = source.len();
    proof {
        assert(source.spec_bytes() == vstd::utf8::encode_utf8(source@));
        assert(total == byte_len(source@));
        lemma_byte_pos_total(source@);
    }
    if off > total as u64 || len > total as u64 - off {
        return Err(IndexError::Io);
    }
    let end: u64 = off + len;
    let n = source.unicode_len();
    let mut i: usize = 0;
    let mut b: u64 = 0;
    proof {
        assert(source@.subrange(0, 0) =~= Seq::<char>::empty());
    }
    while i < n && b < off
        invariant
            i <= n,
            n == source@.len(),
            off == position.0,
            len == position.1,
            off + len <= byte_len(source@),
            byte_len(source@) <= usize::MAX,
            b == byte_pos(source@, i as int),
            b <= off,
        decreases n - i,
    {
        let w = source.substring_char(i, i + 1).len();
        proof {
            lemma_byte_pos_step(source@, i as int);
            lemma_char_width(source@, i as int);
            lemma_byte_pos_mono(source@, i as int + 1, n as int);
            lemma_byte_pos_total(source@);
        }
        b = b + w as u64;
        i = i + 1;
        if b > off {
            proof {
                // the start falls inside this character's encoding
                assert forall|m: int| 0 <= m <= n implies byte_pos(source@, m)
                    != off as int by {
                    if m < i {
                        lemma_byte_pos_mono(source@, m, i as int - 1);
                        lemma_byte_pos_step(source@, i as int - 1);
                    } else {
                        lemma_byte_pos_mono(source@, i as int, m);
                    }
                }
            }
            return Err(IndexError::Decode);
        }
    }
    proof {
        lemma_byte_pos_mono(source@, i as int, n as int);
        lemma_byte_pos_total(source@);
        assert(b == off);
    }
    let start = i;
    while i < n && b < end
        invariant
            start <= i <= n,
            n == source@.len(),
            off == position.0,
            len == position.1,
            off + len <= byte_len(source@),
            byte_len(source@) <= usize::MAX,
            end == off + len,
            b == byte_pos(source@, i as int),
            b <= end,
            byte_pos(source@, start as int) == off,
        decreases n - i,
    {
        let w = source.substring_char(i, i + 1).len();
        proof {
            lemma_byte_pos_step(source@, i as int);
            lemma_char_width(source@, i as int);
            lemma_byte_pos_mono(source@, i as int + 1, n as int);
            lemma_byte_pos_total(source@);
        }
        b = b + w as u64;
        i = i + 1;
        if b > end {
            proof {
                assert forall|m: int| 0 <= m <= n implies byte_pos(source@, m)
                    != end as int by {
                    if m < i {
                        lemma_byte_pos_mono(source@, m, i as int - 1);
                        lemma_byte_pos_step(source@, i as int - 1);
                    } else {
                        lemma_byte_pos_mono(source@, i as int, m);
                    }
                }
            }
            return Err(IndexError::Decode);
        }
    }
    proof {
        lemma_byte_pos_mono(source@, i as int, n as int);
        lemma_byte_pos_total(source@);
        assert(b == end);
    }
    let text = source.substring_char(start, i).to_owned();
    Ok(text)
}

/// Stream the source text into the tree: for each line — terminated by a
/// newline, or by the end of the text — take its first comma-separated
/// field as the key and insert a record pointing at the line's byte range.
/// A line with no extractable key is skipped and never fatal; the offset
/// still advances by the full line. The records the tree gains are exactly
/// the line records of the source.
pub fn index_file(source: &str, tree: &mut BTree)
    requires
        old(tree).wf(),
        byte_len(source@) <= usize::MAX,
    ensures
        final(tree).wf(),
        final(tree).order == old(tree).order,
        final(tree).path == old(tree).path,
        exists|ks: Seq<Key>|
            final(tree).contents().to_multiset() == old(tree).contents().to_multiset().add(
                ks.to_multiset(),
            ) && rec_views(ks) == line_records(source@, 0),
{
    broadcast use vstd::seq_lib::group_to_multiset_ensures;
    broadcast use vstd::multiset::group_multiset_axioms;

    let n = source.unicode_len();
    let mut pos: usize = 0;
    let mut offset: u64 = 0;
    let ghost mut done: Seq<Key> = Seq::empty();
    proof {
        assert(source@.subrange(0, 0) =~= Seq::<char>::empty());
        assert(source@.skip(0) =~= source@);
        assert(rec_views(done) =~= Seq::<(Seq<char>, int, int)>::empty());
        assert(old(tree).contents().to_multiset().add(done.to_multiset())
            =~= old(tree).contents().to_multiset());
    }
    while pos < n
        invariant
            pos <= n,
            n == source@.len(),
            byte_len(source@) <= usize::MAX,
            tree.wf(),
            tree.order == old(tree).order,
            tree.path == old(tree).path,
            offset == byte_pos(source@, pos as int),
            tree.contents().to_multiset() == old(tree).contents().to_multiset().add(
                done.to_multiset(),
            ),
            line_records(source@, 0) == rec_views(done) + line_records(
                source@.skip(pos as int),
                offset as int,
            ),
        decreases n - pos,
    {
        let ghost suffix = source@.skip(pos as int);
        let mut e: usize = pos;
        while e < n && source.get_char(e) != '\n'
            invariant
                pos <= e <= n,
                n == source@.len(),
                forall|j: int| pos <= j < e ==> source@[j] != '\n',
            decreases n - e,
        {
            e = e + 1;
        }
        let e2 = if e < n {
            e + 1
        } else {
            e
        };
        proof {
            assert(forall|j: int| 0 <= j < e - pos ==> suffix[j] == #[trigger] source@[j + pos]);
            if e < n {
                assert(suffix[e - pos] == source@[e as int]);
            }
            lemma_line_len_at(suffix, e - pos);
            assert(line_len(suffix) == e2 - pos);
        }
        let line = source.substring_char(pos, e2);
        let size = line.len();
        proof {
            assert(line@ =~= suffix.subrange(0, e2 - pos));
            assert(source@.subrange(0, e2 as int) =~= source@.subrange(0, pos as int)
                + source@.subrange(pos as int, e2 as int));
            lemma_encode_concat(
                source@.subrange(0, pos as int),
                source@.subrange(pos as int, e2 as int),
            );
            assert(byte_pos(source@, e2 as int) == offset + byte_len(line@));
            lemma_byte_pos_mono(source@, e2 as int, n as int);
            lemma_byte_pos_total(source@);
            assert(byte_len(line@) <= usize::MAX);
            assert(line.spec_bytes() == vstd::utf8::encode_utf8(line@));
            assert(size == byte_len(line@));
        }
        match get_key(0, line) {
            None => {
                // every line has a field `0`, so nothing is ever skipped;
                // the scan mirrors the design's tolerance for key-less lines
                proof {
                    assert(nth_field(line@, 0) == Some(first_field(line@)));
                    assert(false);
                }
            },
            Some(field) => {
                let key = Key::create(field, (offset, size as u64));
                tree.insert(key);
                proof {
                    assert(key.value@ == first_field(line@));
                    let l = line_len(suffix);
                    assert(1 <= l <= suffix.len());
                    assert(line_records(suffix, offset as int) == seq![
                        (first_field(suffix.subrange(0, l)), offset as int, byte_len(
                            suffix.subrange(0, l),
                        )),
                    ] + line_records(suffix.skip(l), offset as int + byte_len(
                        suffix.subrange(0, l),
                    )));
                    assert(suffix.subrange(0, l) == line@);
                    assert(rec_view(key) == (first_field(suffix.subrange(0, l)), offset as int,
                    byte_len(suffix.subrange(0, l))));
                    let done2 = done.push(key);
                    assert(source@.skip(e2 as int) =~= suffix.skip(l));
                    assert(line_records(suffix, offset as int) == seq![rec_view(key)]
                        + line_records(source@.skip(e2 as int), offset as int + size as int));
                    assert(line_records(source@, 0) =~= rec_views(done2) + line_records(
                        source@.skip(e2 as int),
                        offset as int + size as int,
                    )) by {
                        assert(rec_views(done2).len() == done.len() + 1);
                        assert forall|q: int| 0 <= q < done2.len() implies rec_views(done2)[q]
                            == (rec_views(done) + seq![rec_view(key)])[q] by {
                            if q < done.len() {
                                assert(done2[q] == done[q]);
                                assert(rec_views(done2)[q] == rec_view(done2[q]));
                                assert(rec_views(done)[q] == rec_view(done[q]));
                            } else {
                                assert(done2[q] == key);
                                assert(rec_views(done2)[q] == rec_view(key));
                            }
                        }
                        assert(rec_views(done2) =~= rec_views(done) + seq![rec_view(key)]);
                    }
                    vstd::seq_lib::to_multiset_build(done, key);
                    assert(done2.to_multiset() == done.to_multiset().insert(key));
                    assert(tree.contents().to_multiset() =~= old(
                        tree,
                    ).contents().to_multiset().add(done2.to_multiset()));
                    done = done2;
                }
            },
        }
        offset = offset + size as u64;
        pos = e2;
    }
    proof {
        assert(source@.skip(n as int) =~= Seq::<char>::empty());
        assert(line_records(source@, 0) =~= rec_views(done));
    }
}

} // verus!
