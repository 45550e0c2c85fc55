//! Where the workspace stands: a branch, or a detached revision.
use vstd::prelude::*;
use crate::codec::{has_at, json_string, lemma_has_at, lemma_has_at_concat, read_byte, read_string, write_string, CLOSE_BRACE, OPEN_BRACE};
use crate::error::{repository_error, Error};
use crate::objects::{field_text, read_field_key};
use crate::oid::{lemma_oid_len, oid_text, Oid};
use crate::database::Object;

verus! {

broadcast use lemma_oid_len;

/// The revision the workspace is based on: the tip of a branch, or an id.
pub enum Head {
    Oid(Oid),
    Branch(String),
}

pub open spec fn oid_key() -> Seq<char> {
    seq!['O', 'i', 'd']
}

pub open spec fn branch_key() -> Seq<char> {
    seq!['B', 'r', 'a', 'n', 'c', 'h']
}

/// What a head points at, as plain values.
pub enum HeadView {
    Oid(Seq<u8>),
    Branch(Seq<char>),
}

impl View for Head {
    type V = HeadView;

    open spec fn view(&self) -> HeadView {
        match self {
            Head::Oid(o) => HeadView::Oid(o@),
            Head::Branch(b) => HeadView::Branch(b@),
        }
    }
}

pub open spec fn valid_head(v: HeadView) -> bool {
    v matches HeadView::Oid(o) ==> o.len() == 32
}

/// How a head is written: `{"Oid":O}` or `{"Branch":"name"}`.
pub open spec fn head_view_text(v: HeadView) -> Seq<u8> {
    match v {
        HeadView::Oid(o) => seq![OPEN_BRACE] + (field_text(oid_key()) + (oid_text(o) + seq![CLOSE_BRACE])),
        HeadView::Branch(b) => seq![OPEN_BRACE] + (field_text(branch_key()) + (json_string(b) + seq![
            CLOSE_BRACE,
        ])),
    }
}

pub open spec fn head_text(h: Head) -> Seq<u8> {
    head_view_text(h@)
}

impl Head {
    pub fn is_branch(&self) -> (res: bool)
        ensures
            res == (*self is Branch),
    {
        match self {
            Head::Branch(_) => true,
            _ => false,
        }
    }

    /// The branch the head is on; an error when the head is an id.
    pub fn branch(&self) -> (res: Result<&str, Error>)
        ensures
            res matches Ok(b) ==> (*self matches Head::Branch(x) && b@ == x@),
            res is Err <==> !(*self is Branch),
            res matches Err(e) ==> repository_error(e, "Head.branch method called on wrong spot"@),
    {
        match self {
            Head::Branch(branch) => Ok(branch.as_str()),
            _ => Err(Error::Repository(String::from_str("Head.branch method called on wrong spot"))),
        }
    }

    /// The id the head is on; an error when the head is a branch.
    pub fn oid(&self) -> (res: Result<&Oid, Error>)
        ensures
            res matches Ok(o) ==> (*self matches Head::Oid(x) && o@ == x@),
            res is Err <==> !(*self is Oid),
            res matches Err(e) ==> repository_error(e, "Head.oid method called on wrong spot"@),
    {
        match self {
            Head::Oid(oid) => Ok(oid),
            _ => Err(Error::Repository(String::from_str("Head.oid method called on wrong spot"))),
        }
    }

    /// Appends the text of the head.
    pub fn write_json(&self, out: &mut Vec<u8>)
        ensures
            final(out)@ == old(out)@ + head_text(*self),
    {
        proof {
            reveal_strlit("Oid");
            reveal_strlit("Branch");
            assert("Oid"@ =~= oid_key());
            assert("Branch"@ =~= branch_key());
        }
        out.push(OPEN_BRACE);
        match self {
            Head::Oid(o) => {
                write_string(out, "Oid");
                out.push(crate::codec::COLON);
                o.write_json(out);
            },
            Head::Branch(b) => {
                write_string(out, "Branch");
                out.push(crate::codec::COLON);
                write_string(out, b.as_str());
            },
        }
        out.push(CLOSE_BRACE);
        assert(out@ =~= old(out)@ + head_text(*self));
    }

    /// Reads the text of a head at `pos`, as `write_json` writes it.
    pub fn read_json(t: &[u8], pos: usize) -> (res: Option<(Head, usize)>)
        ensures
            res matches Some((h, end)) ==> pos <= end <= t@.len() && t@.subrange(pos as int, end as int)
                == head_text(h),
            forall|h: HeadView|
                valid_head(h) && #[trigger] has_at(t@, pos as int, head_view_text(h)) ==> (res matches Some((r, end)) && r@ == h
                && end == pos + head_view_text(h).len()),
    {
        proof {
            reveal_strlit("Oid");
            reveal_strlit("Branch");
            assert("Oid"@ =~= oid_key());
            assert("Branch"@ =~= branch_key());
            assert forall|h: HeadView| valid_head(h) && #[trigger] has_at(t@, pos as int, head_view_text(h)) implies head_parts(t@, pos as int, h) by {
                lemma_head_parts(t@, pos as int, h);
            }
        }
        if !read_byte(t, pos, OPEN_BRACE) {
            return None;
        }
        if let Some(p1) = read_field_key(t, pos + 1, "Oid") {
            proof {
                assert forall|h: HeadView| valid_head(h) && #[trigger] has_at(t@, pos as int, head_view_text(h)) implies h is Oid by {
                    if let HeadView::Branch(b) = h {
                        lemma_key_differs(t@, pos + 1);
                    }

                }
            }
            let (o, p2) = match Oid::read_json(t, p1) {
                Some(r) => r,
                None => return None,
            };
            if !read_byte(t, p2, CLOSE_BRACE) {
                return None;
            }
            let h = Head::Oid(o);
            proof {
                lemma_has_at(t@, pos as int, seq![OPEN_BRACE]);
                lemma_has_at(t@, p2 as int, seq![CLOSE_BRACE]);
                assert(t@[pos + 0] == OPEN_BRACE);
                assert(t@[p2 + 0] == CLOSE_BRACE);
                lemma_has_at(t@, pos + 1, field_text(oid_key()));
                assert(t@.subrange(pos as int, p2 + 1) =~= t@.subrange(pos as int, pos + 1) + t@.subrange(pos + 1, p1 as int)
                    + t@.subrange(p1 as int, p2 as int) + t@.subrange(p2 as int, p2 + 1));
                assert(t@.subrange(pos as int, pos + 1) =~= seq![OPEN_BRACE]);
                assert(t@.subrange(p2 as int, p2 + 1) =~= seq![CLOSE_BRACE]);
                assert(t@.subrange(pos as int, p2 + 1) =~= head_text(h));
            }
            return Some((h, p2 + 1));
        }
        let p1 = match read_field_key(t, pos + 1, "Branch") {
            Some(p) => p,
            None => return None,
        };
        let (b, p2) = match read_string(t, p1) {
            Some(r) => r,
            None => return None,
        };
        if !read_byte(t, p2, CLOSE_BRACE) {
            return None;
        }
        let h = Head::Branch(b);
        proof {
            lemma_has_at(t@, pos as int, seq![OPEN_BRACE]);
            lemma_has_at(t@, p2 as int, seq![CLOSE_BRACE]);
            assert(t@[pos + 0] == OPEN_BRACE);
            assert(t@[p2 + 0] == CLOSE_BRACE);
            lemma_has_at(t@, pos + 1, field_text(branch_key()));
            assert(t@.subrange(pos as int, p2 + 1) =~= t@.subrange(pos as int, pos + 1) + t@.subrange(pos + 1, p1 as int)
                + t@.subrange(p1 as int, p2 as int) + t@.subrange(p2 as int, p2 + 1));
            assert(t@.subrange(pos as int, pos + 1) =~= seq![OPEN_BRACE]);
            assert(t@.subrange(p2 as int, p2 + 1) =~= seq![CLOSE_BRACE]);
            assert(t@.subrange(pos as int, p2 + 1) =~= head_text(h));
        }
        Some((h, p2 + 1))
    }
}

/// The pieces of a head's text as a reader meets them.
pub open spec fn head_parts(t: Seq<u8>, pos: int, h: HeadView) -> bool {
    match h {
        HeadView::Oid(o) => {
            &&& has_at(t, pos, seq![OPEN_BRACE])
            &&& has_at(t, pos + 1, field_text(oid_key()))
            &&& has_at(t, pos + 1 + field_text(oid_key()).len(), oid_text(o))
            &&& has_at(t, pos + 1 + field_text(oid_key()).len() + oid_text(o).len(), seq![CLOSE_BRACE])
        },
        HeadView::Branch(b) => {
            &&& has_at(t, pos, seq![OPEN_BRACE])
            &&& has_at(t, pos + 1, field_text(branch_key()))
            &&& has_at(t, pos + 1 + field_text(branch_key()).len(), json_string(b))
            &&& has_at(t, pos + 1 + field_text(branch_key()).len() + json_string(b).len(), seq![CLOSE_BRACE])
        },
    }
}

proof fn lemma_head_parts(t: Seq<u8>, pos: int, h: HeadView)
    requires
        has_at(t, pos, head_view_text(h)),
    ensures
        head_parts(t, pos, h),
{
    match h {
        HeadView::Oid(o) => {
            let k = field_text(oid_key());
            let v = oid_text(o);
            lemma_has_at_concat(t, pos, seq![OPEN_BRACE], k + (v + seq![CLOSE_BRACE]));
            lemma_has_at_concat(t, pos + 1, k, v + seq![CLOSE_BRACE]);
            lemma_has_at_concat(t, pos + 1 + k.len(), v, seq![CLOSE_BRACE]);
        },
        HeadView::Branch(b) => {
            let k = field_text(branch_key());
            let v = json_string(b);
            lemma_has_at_concat(t, pos, seq![OPEN_BRACE], k + (v + seq![CLOSE_BRACE]));
            lemma_has_at_concat(t, pos + 1, k, v + seq![CLOSE_BRACE]);
            lemma_has_at_concat(t, pos + 1 + k.len(), v, seq![CLOSE_BRACE]);
        },
    }
}

/// The two keys of a head differ in their second byte.
proof fn lemma_key_differs(t: Seq<u8>, pos: int)
    requires
        has_at(t, pos, field_text(oid_key())),
    ensures
        !has_at(t, pos, field_text(branch_key())),
{
    lemma_second_byte(oid_key());
    lemma_second_byte(branch_key());
    lemma_has_at(t, pos, field_text(oid_key()));
    lemma_has_at(t, pos, field_text(branch_key()));
    assert(t[pos + 1] == field_text(oid_key())[1]);
    if has_at(t, pos, field_text(branch_key())) {
        assert(t[pos + 1] == field_text(branch_key())[1]);
    }
}

/// The byte after the opening quote of the literal of an ASCII key.
proof fn lemma_second_byte(k: Seq<char>)
    requires
        k.len() > 0,
        vstd::utf8::is_ascii_chars(k),
        0x20 <= k[0] as u8 <= 0x7e,
        k[0] != '"' && k[0] != '\\',
    ensures
        field_text(k).len() > 1,
        field_text(k)[1] == k[0] as u8,
{
    let b = vstd::utf8::encode_utf8(k);
    vstd::utf8::is_ascii_chars_encode_utf8(k);
    assert(b[0] == k[0] as u8);
    let first = seq![b[0]];
    assert(b =~= first + b.skip(1));
    crate::codec::lemma_escape_concat(first, b.skip(1));
    assert(first.drop_last() =~= Seq::<u8>::empty());
    assert(crate::codec::escape_bytes(first.drop_last()) =~= Seq::<u8>::empty());
    assert(crate::codec::escape_bytes(first) =~= seq![b[0]]);
}


impl Object for Head {
    open spec fn text_of(v: HeadView) -> Seq<u8> {
        head_view_text(v)
    }

    open spec fn valid_view(v: HeadView) -> bool {
        valid_head(v)
    }

    proof fn lemma_valid(&self) {
    }

    fn to_json(&self) -> (res: Vec<u8>) {
        let mut out = Vec::new();
        self.write_json(&mut out);
        assert(out@ =~= head_text(*self));
        out
    }

    fn from_json(t: &[u8]) -> (res: Option<Head>) {
        proof {
            assert forall|h: HeadView| valid_head(h) && head_view_text(h) == t@ implies has_at(t@, 0, head_view_text(h)) by {
                assert(t@.subrange(0, head_view_text(h).len() as int) =~= head_view_text(h));
            }
        }
        match Head::read_json(t, 0) {
            Some((h, end)) => {
                if end == t.len() {
                    assert(t@.subrange(0, end as int) =~= t@);
                    Some(h)
                } else {
                    None
                }
            },
            None => None,
        }
    }
}

} // verus!
