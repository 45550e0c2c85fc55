use vstd::prelude::*;
use sha2::Digest;
use vstd::string::StringSliceAdditionalSpecFns;
use crate::codec::{
    decimal, has_at, join_items, json_array, lemma_has_at, lemma_has_at_concat, lemma_join_push,
    lemma_rest_items_end, lemma_rest_items_step, number_ends, read_byte, read_integer, rest_items,
    write_integer, CLOSE_BRACKET, COMMA, OPEN_BRACKET,
};

verus! {

/// The SHA-256 digest of `data`.
pub uninterp spec fn sha256_digest(data: Seq<u8>) -> Seq<u8>;

/// Calls `sha2::Sha256::digest` on `data`. The contract claims only that the 32
/// bytes returned are the digest named `sha256_digest` of the data: the same
/// data always yields the same bytes.
#[verifier::external_body]
fn sha256(data: &[u8]) -> (res: [u8; 32])
    ensures
        res@ == sha256_digest(data@),
{
    sha2::Sha256::digest(data).into()
}

/// An object id: the SHA-256 digest of the stored text of an object.
#[derive(Clone, Copy)]
pub struct Oid {
    bytes: [u8; 32],
}

impl View for Oid {
    type V = Seq<u8>;

    closed spec fn view(&self) -> Seq<u8> {
        self.bytes@
    }
}

/// The texts of the elements of a JSON array of bytes.
pub open spec fn byte_texts(v: Seq<u8>) -> Seq<Seq<u8>> {
    v.map_values(|b: u8| decimal(b as int))
}

/// How an object id is written: a JSON array of its 32 bytes.
pub open spec fn oid_text(v: Seq<u8>) -> Seq<u8> {
    json_array(byte_texts(v))
}

/// The lower-case hexadecimal character of a digit in `0..16`.
pub open spec fn hex_char(d: int) -> char {
    if d < 10 {
        (48 + d) as char
    } else {
        (87 + d) as char
    }
}

/// Two lower-case hexadecimal characters per byte, high digit first.
pub open spec fn hex_text(v: Seq<u8>) -> Seq<char>
    decreases v.len(),
{
    if v.len() == 0 {
        seq![]
    } else {
        hex_text(v.drop_last()) + seq![hex_char((v.last() / 16) as int), hex_char((v.last() % 16) as int)]
    }
}

pub broadcast proof fn lemma_oid_len(o: Oid)
    ensures
        #[trigger] o@.len() == 32,
{
}

fn hex_digit_str(d: u8) -> (res: &'static str)
    requires
        d < 16,
    ensures
        res@ == seq![hex_char(d as int)],
{
    proof {
        reveal_strlit("0");
        reveal_strlit("1");
        reveal_strlit("2");
        reveal_strlit("3");
        reveal_strlit("4");
        reveal_strlit("5");
        reveal_strlit("6");
        reveal_strlit("7");
        reveal_strlit("8");
        reveal_strlit("9");
        reveal_strlit("a");
        reveal_strlit("b");
        reveal_strlit("c");
        reveal_strlit("d");
        reveal_strlit("e");
        reveal_strlit("f");
    }
    let res = match d {
        0 => "0",
        1 => "1",
        2 => "2",
        3 => "3",
        4 => "4",
        5 => "5",
        6 => "6",
        7 => "7",
        8 => "8",
        9 => "9",
        10 => "a",
        11 => "b",
        12 => "c",
        13 => "d",
        14 => "e",
        _ => "f",
    };
    assert(res@ =~= seq![hex_char(d as int)]);
    res
}

impl Oid {
    /// The id of an object whose stored text is `content`: the digest of its
    /// UTF-8 bytes.
    pub fn build(content: &str) -> (res: Oid)
        ensures
            res@ == sha256_digest(content.spec_bytes()),
    {
        Oid { bytes: sha256(content.as_bytes()) }
    }

    /// The id of an object whose stored text has the bytes `data`.
    pub fn of_bytes(data: &[u8]) -> (res: Oid)
        ensures
            res@ == sha256_digest(data@),
    {
        Oid { bytes: sha256(data) }
    }

    /// Whether two ids are the same.
    pub fn same(&self, other: &Oid) -> (res: bool)
        ensures
            res == (self@ == other@),
    {
        let mut k: usize = 0;
        while k < 32
            invariant
                k <= 32,
                forall|j: int| 0 <= j < k ==> self@[j] == other@[j],
            decreases 32 - k,
        {
            if self.bytes[k] != other.bytes[k] {
                return false;
            }
            k = k + 1;
        }
        assert(self@ =~= other@);
        true
    }

    /// Appends the hexadecimal text of the bytes `from..to` of the id.
    fn append_hex(&self, out: &mut String, from: usize, to: usize)
        requires
            from <= to <= 32,
        ensures
            final(out)@ == old(out)@ + hex_text(self@.subrange(from as int, to as int)),
    {
        let mut k = from;
        while k < to
            invariant
                from <= k <= to <= 32,
                out@ == old(out)@ + hex_text(self@.subrange(from as int, k as int)),
            decreases to - k,
        {
            let b = self.bytes[k];
            out.append(hex_digit_str(b / 16));
            out.append(hex_digit_str(b % 16));
            proof {
                let s = self@.subrange(from as int, k + 1);
                assert(s.drop_last() =~= self@.subrange(from as int, k as int));
                assert(s.last() == b);
            }
            k = k + 1;
        }
    }

    /// The id as 64 lower-case hexadecimal characters.
    pub fn to_hex(&self) -> (res: String)
        ensures
            res@ == hex_text(self@),
    {
        let mut out = String::new();
        self.append_hex(&mut out, 0, 32);
        assert(self@.subrange(0, 32) =~= self@);
        out
    }

    /// The directory and file names under which the object is stored: the
    /// hexadecimal text of the first two bytes, and that of the other 30.
    pub fn split(&self) -> (res: (String, String))
        ensures
            res.0@ == hex_text(self@.subrange(0, 2)),
            res.1@ == hex_text(self@.subrange(2, 32)),
            res.0@ + res.1@ == hex_text(self@),
    {
        let mut dir = String::new();
        self.append_hex(&mut dir, 0, 2);
        let mut file = String::new();
        self.append_hex(&mut file, 2, 32);
        proof {
            lemma_hex_text_concat(self@.subrange(0, 2), self@.subrange(2, 32));
            assert(self@.subrange(0, 2) + self@.subrange(2, 32) =~= self@);
        }
        (dir, file)
    }

    /// Appends the JSON text of the id.
    pub fn write_json(&self, out: &mut Vec<u8>)
        ensures
            final(out)@ == old(out)@ + oid_text(self@),
    {
        out.push(OPEN_BRACKET);
        let mut k: usize = 0;
        while k < 32
            invariant
                k <= 32,
                out@ == old(out)@ + seq![OPEN_BRACKET] + join_items(byte_texts(self@.take(k as int))),
            decreases 32 - k,
        {
            let ghost before = out@;
            if k > 0 {
                out.push(COMMA);
            }
            write_integer(out, self.bytes[k] as i64);
            proof {
                assert(byte_texts(self@.take(k + 1)) =~= byte_texts(self@.take(k as int)).push(
                    decimal(self@[k as int] as int),
                ));
                lemma_join_push(byte_texts(self@.take(k as int)), decimal(self@[k as int] as int));
                assert(out@ =~= old(out)@ + seq![OPEN_BRACKET] + join_items(byte_texts(self@.take(k + 1))));
            }
            k = k + 1;
        }
        out.push(CLOSE_BRACKET);
        assert(self@.take(32) =~= self@);
        assert(out@ =~= old(out)@ + oid_text(self@));
    }

    /// Reads the JSON text of an id at `pos`, as `write_json` writes it, and
    /// returns the id with the position after its text.
    pub fn read_json(t: &[u8], pos: usize) -> (res: Option<(Oid, usize)>)
        ensures
            res matches Some((o, end)) ==> pos <= end <= t@.len() && t@.subrange(pos as int, end as int)
                == oid_text(o@),
            forall|v: Seq<u8>|
                v.len() == 32 && #[trigger] has_at(t@, pos as int, oid_text(v)) ==> (res matches Some(
                    (o, end),
                ) && o@ == v && end == pos + oid_text(v).len()),
    {
        proof {
            assert forall|v: Seq<u8>| v.len() == 32 && #[trigger] has_at(t@, pos as int, oid_text(v)) implies
                has_at(t@, pos as int, seq![OPEN_BRACKET]) && has_at(t@, pos + 1, rest_items(byte_texts(v), 0)
                + seq![CLOSE_BRACKET]) by {
                assert(oid_text(v) =~= seq![OPEN_BRACKET] + (rest_items(byte_texts(v), 0) + seq![CLOSE_BRACKET]));
                lemma_has_at_concat(t@, pos as int, seq![OPEN_BRACKET], rest_items(byte_texts(v), 0) + seq![CLOSE_BRACKET]);
            }
        }
        let len = t.len();
        if !read_byte(t, pos, OPEN_BRACKET) {
            return None;
        }
        let mut bytes = [0u8; 32];
        let mut i = pos + 1;
        let mut k: usize = 0;
        assert(t@.subrange(pos as int, i as int) =~= seq![OPEN_BRACKET] + join_items(byte_texts(bytes@.take(0))));
        while k < 32
            invariant
                pos < i <= t@.len(),
                len == t@.len(),
                k <= 32,
                t@.subrange(pos as int, i as int) == seq![OPEN_BRACKET] + join_items(byte_texts(bytes@.take(k as int))),
                forall|v: Seq<u8>|
                    v.len() == 32 && #[trigger] has_at(t@, pos as int, oid_text(v)) ==> bytes@.take(k as int) == v.take(
                        k as int,
                    ) && has_at(t@, i as int, rest_items(byte_texts(v), k as int) + seq![CLOSE_BRACKET]),
            decreases 32 - k,
        {
            let i0 = i;
            if k > 0 {
                proof {
                    assert forall|v: Seq<u8>| v.len() == 32 && #[trigger] has_at(t@, pos as int, oid_text(v)) implies
                        has_at(t@, i as int, seq![COMMA]) by {
                        lemma_byte_item_step(t@, i as int, byte_texts(v), k as int);
                    }
                }
                if !read_byte(t, i, COMMA) {
                    return None;
                }
                proof {
                    lemma_has_at(t@, i as int, seq![COMMA]);
                    assert(t@[i + 0] == COMMA);
                }
                i = i + 1;
            }
            proof {
                assert forall|v: Seq<u8>| v.len() == 32 && #[trigger] has_at(t@, pos as int, oid_text(v)) implies
                    has_at(t@, i as int, decimal(v[k as int] as int)) && number_ends(t@, i + decimal(v[k as int] as int).len())
                    && has_at(t@, i + decimal(v[k as int] as int).len(), rest_items(byte_texts(v), k + 1) + seq![CLOSE_BRACKET]) by {
                    lemma_byte_item_step(t@, i0 as int, byte_texts(v), k as int);
                }
            }
            match read_integer(t, i, 0, 255) {
                None => {
                    return None;
                },
                Some((n, e)) => {
                    let ghost old_bytes = bytes@;
                    bytes[k] = n as u8;
                    proof {
                        assert(bytes@.take(k as int) =~= old_bytes.take(k as int));
                        assert(byte_texts(bytes@.take(k + 1)) =~= byte_texts(bytes@.take(k as int)).push(
                            decimal(n as int),
                        ));
                        lemma_item_sound_step(t@, pos as int, i0 as int, i as int, e as int,
                            byte_texts(bytes@.take(k as int)), decimal(n as int));
                        assert forall|v: Seq<u8>| v.len() == 32 && #[trigger] has_at(t@, pos as int, oid_text(v)) implies
                            bytes@.take(k + 1) == v.take(k + 1) by {
                            assert(bytes@.take(k + 1) =~= v.take(k + 1));
                        }
                    }
                    i = e;
                },
            }
            k = k + 1;
        }
        proof {
            assert forall|v: Seq<u8>| v.len() == 32 && #[trigger] has_at(t@, pos as int, oid_text(v)) implies
                has_at(t@, i as int, seq![CLOSE_BRACKET]) by {
                lemma_rest_items_end(byte_texts(v));
                assert(rest_items(byte_texts(v), 32) + seq![CLOSE_BRACKET] =~= seq![CLOSE_BRACKET]);
            }
        }
        if !read_byte(t, i, CLOSE_BRACKET) {
            return None;
        }
        let o = Oid { bytes };
        proof {
            lemma_has_at(t@, i as int, seq![CLOSE_BRACKET]);
            assert(t@[i + 0] == CLOSE_BRACKET);
            assert(bytes@.take(32) =~= bytes@);
            assert(t@.subrange(pos as int, i + 1) =~= t@.subrange(pos as int, i as int) + seq![CLOSE_BRACKET]);
            assert(t@.subrange(pos as int, i + 1) =~= oid_text(o@));
            assert forall|v: Seq<u8>| v.len() == 32 && #[trigger] has_at(t@, pos as int, oid_text(v)) implies
                o@ == v && i + 1 == pos + oid_text(v).len() by {
                assert(v.take(32) =~= v);
                assert(o@ =~= v);
            }
        }
        Some((o, i + 1))
    }
}

pub proof fn lemma_hex_text_concat(a: Seq<u8>, b: Seq<u8>)
    ensures
        hex_text(a + b) == hex_text(a) + hex_text(b),
    decreases b.len(),
{
    if b.len() == 0 {
        assert(a + b =~= a);
        assert(hex_text(a) + hex_text(b) =~= hex_text(a));
    } else {
        lemma_hex_text_concat(a, b.drop_last());
        assert((a + b).drop_last() =~= a + b.drop_last());
        assert((a + b).last() == b.last());
        assert(hex_text(a + b) =~= hex_text(a) + hex_text(b));
    }
}

/// What follows an element of an array other than the first: a comma before the
/// next element, or the closing bracket.
pub proof fn lemma_rest_first_byte(s: Seq<Seq<u8>>, k: int)
    requires
        0 < k <= s.len(),
    ensures
        (rest_items(s, k) + seq![CLOSE_BRACKET])[0] == if k < s.len() { COMMA } else { CLOSE_BRACKET },
{
    if k < s.len() {
        lemma_rest_items_step(s, k);
    } else {
        lemma_rest_items_end(s);
    }
}


/// The text a reader meets at element `k` of an array: the separator, the
/// element, and what follows it.
pub proof fn lemma_byte_item_step(t: Seq<u8>, i: int, s: Seq<Seq<u8>>, k: int)
    requires
        0 <= k < s.len(),
        has_at(t, i, rest_items(s, k) + seq![CLOSE_BRACKET]),
        forall|j: int| 0 <= j < s.len() ==> #[trigger] s[j].len() > 0 && crate::codec::is_digit(s[j][s[j].len() - 1]),
    ensures
        ({
            let sep: Seq<u8> = if k == 0 { seq![] } else { seq![COMMA] };
            &&& has_at(t, i, sep)
            &&& has_at(t, i + sep.len(), s[k])
            &&& number_ends(t, i + sep.len() + s[k].len())
            &&& has_at(t, i + sep.len() + s[k].len(), rest_items(s, k + 1) + seq![CLOSE_BRACKET])
        }),
{
    let sep: Seq<u8> = if k == 0 { seq![] } else { seq![COMMA] };
    let r = rest_items(s, k + 1) + seq![CLOSE_BRACKET];
    lemma_rest_items_step(s, k);
    assert(rest_items(s, k) + seq![CLOSE_BRACKET] =~= sep + (s[k] + r));
    lemma_has_at_concat(t, i, sep, s[k] + r);
    lemma_has_at_concat(t, i + sep.len(), s[k], r);
    lemma_rest_first_byte(s, k + 1);
    lemma_has_at(t, i + sep.len() + s[k].len(), r);
    assert(t[(i + sep.len() + s[k].len()) + 0] == r[0]);
}

/// Reading one more element keeps the text read so far equal to the opening
/// bracket and the elements read.
pub proof fn lemma_item_sound_step(t: Seq<u8>, pos: int, i0: int, i: int, e: int, read: Seq<Seq<u8>>, x: Seq<u8>)
    requires
        0 <= pos <= i0 <= i <= e <= t.len(),
        t.subrange(pos, i0) == seq![OPEN_BRACKET] + join_items(read),
        read.len() == 0 ==> i == i0,
        read.len() > 0 ==> i == i0 + 1 && t[i0] == COMMA,
        t.subrange(i, e) == x,
    ensures
        t.subrange(pos, e) == seq![OPEN_BRACKET] + join_items(read.push(x)),
{
    lemma_join_push(read, x);
    assert(t.subrange(pos, e) =~= t.subrange(pos, i) + t.subrange(i, e));
    assert(t.subrange(pos, i) =~= t.subrange(pos, i0) + t.subrange(i0, i));
    if read.len() > 0 {
        assert(t.subrange(i0, i).len() == 1);
        assert(t.subrange(i0, i)[0] == t[i0]);
        assert(t.subrange(i0, i) =~= seq![COMMA]);
    } else {
        assert(t.subrange(i0, i) =~= Seq::<u8>::empty());
    }
    assert(t.subrange(pos, e) =~= seq![OPEN_BRACKET] + join_items(read.push(x)));
}

} // verus!
