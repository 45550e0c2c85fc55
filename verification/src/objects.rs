//! The objects of the database: blobs, trees and their entries, commits.
use vstd::prelude::*;
use crate::codec::{
    null_text, read_key, read_null, write_null, COLON, OPEN_BRACE, CLOSE_BRACE,
    join_items, json_array, lemma_join_push, lemma_rest_items_end, lemma_rest_items_step, rest_items,
    decimal, has_at, json_string, lemma_has_at, lemma_has_at_concat, number_ends, read_byte,
    read_integer, read_string, write_integer, write_string, CLOSE_BRACKET, COMMA, OPEN_BRACKET,
};
use crate::oid::{lemma_oid_len, oid_text, sha256_digest, Oid};
use crate::database::{is_text_of, Object};

verus! {

broadcast use lemma_oid_len;

/// The mode of a directory entry.
pub const DIRECTORY_MODE: u32 = 0o40000;

/// The mode of a file that is only readable.
pub const READONLY_FILE_MODE: u32 = 0o100644;

/// The mode of a file that may be written.
pub const EXECUTABLE_FILE_MODE: u32 = 0o100755;

/// One entry of a stored tree: mode, modification time, object id, name.
pub struct Entry(pub u32, pub i64, pub Oid, pub String);

/// How an entry is written: `[mode,mtime,oid,"name"]`.
pub open spec fn entry_text(mode: u32, mtime: i64, oid: Seq<u8>, name: Seq<char>) -> Seq<u8> {
    seq![OPEN_BRACKET] + (decimal(mode as int) + (seq![COMMA] + (decimal(mtime as int) + (seq![COMMA]
        + (oid_text(oid) + (seq![COMMA] + (json_string(name) + seq![CLOSE_BRACKET])))))))
}

impl Entry {
    pub open spec fn text(&self) -> Seq<u8> {
        entry_text(self.0, self.1, self.2@, self.3@)
    }

    pub fn new(mode: u32, mtime: i64, oid: Oid, name: String) -> (res: Entry)
        ensures
            res.0 == mode && res.1 == mtime && res.2@ == oid@ && res.3@ == name@,
    {
        Entry(mode, mtime, oid, name)
    }

    pub fn mode(&self) -> (res: u32)
        ensures
            res == self.0,
    {
        self.0
    }

    pub fn mtime(&self) -> (res: i64)
        ensures
            res == self.1,
    {
        self.1
    }

    pub fn oid(&self) -> (res: &Oid)
        ensures
            res@ == self.2@,
    {
        &self.2
    }

    pub fn set_oid(&mut self, oid: Oid)
        ensures
            final(self).2@ == oid@,
            final(self).0 == old(self).0 && final(self).1 == old(self).1 && final(self).3@ == old(self).3@,
    {
        self.2 = oid;
    }

    pub fn name(&self) -> (res: &String)
        ensures
            res@ == self.3@,
    {
        &self.3
    }

    /// Whether the entry names a directory.
    pub fn is_dir(&self) -> (res: bool)
        ensures
            res == (self.0 == DIRECTORY_MODE),
    {
        self.0 == DIRECTORY_MODE
    }

    /// Appends the text of the entry.
    pub fn write_json(&self, out: &mut Vec<u8>)
        ensures
            final(out)@ == old(out)@ + self.text(),
    {
        out.push(OPEN_BRACKET);
        write_integer(out, self.0 as i64);
        out.push(COMMA);
        write_integer(out, self.1);
        out.push(COMMA);
        self.2.write_json(out);
        out.push(COMMA);
        write_string(out, self.3.as_str());
        out.push(CLOSE_BRACKET);
        assert(out@ =~= old(out)@ + self.text());
    }

    /// Reads the text of an entry at `pos`, as `write_json` writes it.
    #[verifier::spinoff_prover]
    #[verifier::rlimit(60)]
    pub fn read_json(t: &[u8], pos: usize) -> (res: Option<(Entry, usize)>)
        ensures
            res matches Some((e, end)) ==> pos <= end <= t@.len() && t@.subrange(pos as int, end as int)
                == e.text(),
            forall|mode: u32, mtime: i64, oid: Seq<u8>, name: Seq<char>|
                oid.len() == 32 && #[trigger] has_at(t@, pos as int, entry_text(mode, mtime, oid, name))
                    ==> (res matches Some((e, end)) && e.0 == mode && e.1 == mtime && e.2@ == oid && e.3@
                    == name && end == pos + entry_text(mode, mtime, oid, name).len()),
    {
        let len = t.len();
        proof {
            assert forall|mode: u32, mtime: i64, oid: Seq<u8>, name: Seq<char>|
                oid.len() == 32 && #[trigger] has_at(t@, pos as int, entry_text(mode, mtime, oid, name))
                implies lemma_entry_parts(t@, pos as int, mode, mtime, oid, name) by {
                lemma_entry_text_parts(t@, pos as int, mode, mtime, oid, name);
            }
        }
        if !read_byte(t, pos, OPEN_BRACKET) {
            return None;
        }
        let p1 = pos + 1;
        let (mode, p2) = match read_integer(t, p1, 0, 4294967295) {
            Some(r) => r,
            None => return None,
        };
        if !read_byte(t, p2, COMMA) {
            return None;
        }
        let (mtime, p3) = match read_integer(t, p2 + 1, i64::MIN, i64::MAX) {
            Some(r) => r,
            None => return None,
        };
        if !read_byte(t, p3, COMMA) {
            return None;
        }
        let (oid, p4) = match Oid::read_json(t, p3 + 1) {
            Some(r) => r,
            None => return None,
        };
        if !read_byte(t, p4, COMMA) {
            return None;
        }
        let (name, p5) = match read_string(t, p4 + 1) {
            Some(r) => r,
            None => return None,
        };
        if !read_byte(t, p5, CLOSE_BRACKET) {
            return None;
        }
        let e = Entry(mode as u32, mtime, oid, name);
        proof {
            lemma_has_at(t@, pos as int, seq![OPEN_BRACKET]);
            lemma_has_at(t@, p2 as int, seq![COMMA]);
            lemma_has_at(t@, p3 as int, seq![COMMA]);
            lemma_has_at(t@, p4 as int, seq![COMMA]);
            lemma_has_at(t@, p5 as int, seq![CLOSE_BRACKET]);
            assert(t@[pos + 0] == OPEN_BRACKET);
            assert(t@[p2 + 0] == COMMA);
            assert(t@[p3 + 0] == COMMA);
            assert(t@[p4 + 0] == COMMA);
            assert(t@[p5 + 0] == CLOSE_BRACKET);
            assert(t@.subrange(pos as int, p5 + 1) =~= e.text());
        }
        Some((e, p5 + 1))
    }
}

/// The pieces of an entry's text as a reader meets them.
pub open spec fn lemma_entry_parts(t: Seq<u8>, pos: int, mode: u32, mtime: i64, oid: Seq<u8>, name: Seq<char>) -> bool {
    let p2 = pos + 1 + decimal(mode as int).len();
    let p3 = p2 + 1 + decimal(mtime as int).len();
    let p4 = p3 + 1 + oid_text(oid).len();
    let p5 = p4 + 1 + json_string(name).len();
    &&& has_at(t, pos, seq![OPEN_BRACKET])
    &&& has_at(t, pos + 1, decimal(mode as int))
    &&& number_ends(t, p2)
    &&& has_at(t, p2, seq![COMMA])
    &&& has_at(t, p2 + 1, decimal(mtime as int))
    &&& number_ends(t, p3)
    &&& has_at(t, p3, seq![COMMA])
    &&& has_at(t, p3 + 1, oid_text(oid))
    &&& has_at(t, p4, seq![COMMA])
    &&& has_at(t, p4 + 1, json_string(name))
    &&& has_at(t, p5, seq![CLOSE_BRACKET])
    &&& p5 + 1 == pos + entry_text(mode, mtime, oid, name).len()
}

proof fn lemma_entry_text_parts(t: Seq<u8>, pos: int, mode: u32, mtime: i64, oid: Seq<u8>, name: Seq<char>)
    requires
        has_at(t, pos, entry_text(mode, mtime, oid, name)),
    ensures
        lemma_entry_parts(t, pos, mode, mtime, oid, name),
{
    let d1 = decimal(mode as int);
    let d2 = decimal(mtime as int);
    let o = oid_text(oid);
    let s = json_string(name);
    let r7 = seq![CLOSE_BRACKET];
    let r6 = s + r7;
    let r5 = seq![COMMA] + r6;
    let r4 = o + r5;
    let r3 = seq![COMMA] + r4;
    let r2 = d2 + r3;
    let r1 = seq![COMMA] + r2;
    let r0 = d1 + r1;
    lemma_has_at_concat(t, pos, seq![OPEN_BRACKET], r0);
    lemma_has_at_concat(t, pos + 1, d1, r1);
    let p2 = pos + 1 + d1.len();
    lemma_has_at_concat(t, p2, seq![COMMA], r2);
    lemma_has_at_concat(t, p2 + 1, d2, r3);
    let p3 = p2 + 1 + d2.len();
    lemma_has_at_concat(t, p3, seq![COMMA], r4);
    lemma_has_at_concat(t, p3 + 1, o, r5);
    let p4 = p3 + 1 + o.len();
    lemma_has_at_concat(t, p4, seq![COMMA], r6);
    lemma_has_at_concat(t, p4 + 1, s, r7);
    lemma_has_at(t, p2, seq![COMMA]);
    lemma_has_at(t, p3, seq![COMMA]);
    assert(t[p2 + 0] == COMMA);
    assert(t[p3 + 0] == COMMA);
}


/// What an entry holds, as plain values: mode, modification time, object id, name.
pub type EntryView = (u32, i64, Seq<u8>, Seq<char>);

pub open spec fn entry_view_text(x: EntryView) -> Seq<u8> {
    entry_text(x.0, x.1, x.2, x.3)
}

pub open spec fn entry_view(e: Entry) -> EntryView {
    (e.0, e.1, e.2@, e.3@)
}

/// The texts of a sequence of entries.
pub open spec fn entry_texts(v: Seq<EntryView>) -> Seq<Seq<u8>> {
    v.map_values(|x: EntryView| entry_view_text(x))
}

/// How a tree is written: a JSON array of its entries.
pub open spec fn tree_text(v: Seq<EntryView>) -> Seq<u8> {
    json_array(entry_texts(v))
}

pub open spec fn valid_entries(v: Seq<EntryView>) -> bool {
    forall|j: int| 0 <= j < v.len() ==> (#[trigger] v[j]).2.len() == 32
}

/// A stored directory listing.
pub struct Tree(pub Vec<Entry>);

impl View for Tree {
    type V = Seq<EntryView>;

    open spec fn view(&self) -> Seq<EntryView> {
        self.0@.map_values(|e: Entry| entry_view(e))
    }
}

impl Tree {
    pub fn new(entries: Vec<Entry>) -> (res: Tree)
        ensures
            res@ == entries@.map_values(|e: Entry| entry_view(e)),
    {
        Tree(entries)
    }

    pub fn entries(&self) -> (res: &Vec<Entry>)
        ensures
            res@.map_values(|e: Entry| entry_view(e)) == self@,
    {
        &self.0
    }

    /// Appends the text of the tree.
    pub fn write_json(&self, out: &mut Vec<u8>)
        ensures
            final(out)@ == old(out)@ + tree_text(self@),
    {
        out.push(OPEN_BRACKET);
        let n = self.0.len();
        let mut k: usize = 0;
        while k < n
            invariant
                k <= n,
                n == self.0@.len(),
                out@ == old(out)@ + seq![OPEN_BRACKET] + join_items(self@.take(k as int).map_values(
                    |x: EntryView| entry_view_text(x),
                )),
            decreases n - k,
        {
            if k > 0 {
                out.push(COMMA);
            }
            self.0[k].write_json(out);
            proof {
                let texts = self@.take(k as int).map_values(|x: EntryView| entry_view_text(x));
                assert(self@.take(k + 1).map_values(|x: EntryView| entry_view_text(x)) =~= texts.push(
                    self.0@[k as int].text(),
                ));
                lemma_join_push(texts, self.0@[k as int].text());
            }
            k = k + 1;
        }
        out.push(CLOSE_BRACKET);
        assert(self@.take(n as int) =~= self@);
        assert(out@ =~= old(out)@ + tree_text(self@));
    }

    /// Reads the text of a tree at `pos`, as `write_json` writes it.
    pub fn read_json(t: &[u8], pos: usize) -> (res: Option<(Tree, usize)>)
        ensures
            res matches Some((tr, end)) ==> pos <= end <= t@.len() && t@.subrange(pos as int, end as int)
                == tree_text(tr@) && valid_entries(tr@),
            forall|v: Seq<EntryView>|
                valid_entries(v) && #[trigger] has_at(t@, pos as int, tree_text(v)) ==> (res matches Some(
                    (tr, end),
                ) && tr@ == v && end == pos + tree_text(v).len()),
    {
        let len = t.len();
        proof {
            assert forall|v: Seq<EntryView>| valid_entries(v) && #[trigger] has_at(t@, pos as int, tree_text(v))
                implies has_at(t@, pos as int, seq![OPEN_BRACKET]) && has_at(t@, pos + 1, rest_items(entry_texts(v), 0)
                + seq![CLOSE_BRACKET]) by {
                assert(tree_text(v) =~= seq![OPEN_BRACKET] + (rest_items(entry_texts(v), 0) + seq![CLOSE_BRACKET]));
                lemma_has_at_concat(t@, pos as int, seq![OPEN_BRACKET], rest_items(entry_texts(v), 0) + seq![CLOSE_BRACKET]);
            }
        }
        if !read_byte(t, pos, OPEN_BRACKET) {
            return None;
        }
        let mut entries: Vec<Entry> = Vec::new();
        let mut i = pos + 1;
        proof {
            lemma_has_at(t@, pos as int, seq![OPEN_BRACKET]);
            assert(t@[pos + 0] == OPEN_BRACKET);
            assert(t@.subrange(pos as int, i as int) =~= seq![OPEN_BRACKET]);
        }
        if read_byte(t, i, CLOSE_BRACKET) {
            let tr = Tree(entries);
            proof {
                lemma_has_at(t@, i as int, seq![CLOSE_BRACKET]);
                assert(t@[i + 0] == CLOSE_BRACKET);
                assert(tr@ =~= Seq::<EntryView>::empty());
                assert(t@.subrange(pos as int, i + 1) =~= tree_text(tr@));
                assert forall|v: Seq<EntryView>| valid_entries(v) && #[trigger] has_at(t@, pos as int, tree_text(v))
                    implies tr@ == v && i + 1 == pos + tree_text(v).len() by {
                    if v.len() > 0 {
                        lemma_rest_items_step(entry_texts(v), 0);
                        lemma_has_at(t@, i as int, rest_items(entry_texts(v), 0) + seq![CLOSE_BRACKET]);
                        assert(t@[i + 0] == (rest_items(entry_texts(v), 0) + seq![CLOSE_BRACKET])[0]);
                        assert(entry_texts(v)[0][0] == OPEN_BRACKET);
                    }
                    assert(v =~= tr@);
                }
            }
            return Some((tr, i + 1));
        }
        proof {
            assert forall|v: Seq<EntryView>| valid_entries(v) && #[trigger] has_at(t@, pos as int, tree_text(v))
                implies v.len() > 0 && has_at(t@, i as int, entry_texts(v)[0] + (rest_items(entry_texts(v), 1)
                + seq![CLOSE_BRACKET])) by {
                if v.len() == 0 {
                    lemma_rest_items_end(entry_texts(v));
                    assert(rest_items(entry_texts(v), 0) + seq![CLOSE_BRACKET] =~= seq![CLOSE_BRACKET]);
                } else {
                    lemma_rest_items_step(entry_texts(v), 0);
                    assert(rest_items(entry_texts(v), 0) + seq![CLOSE_BRACKET] =~= entry_texts(v)[0] + (rest_items(
                        entry_texts(v),
                        1,
                    ) + seq![CLOSE_BRACKET]));
                }
            }
        }
        loop
            invariant
                pos < i <= len,
                len == t@.len(),
                t@.subrange(pos as int, i as int) == seq![OPEN_BRACKET] + join_items(
                    entry_texts(entries@.map_values(|e: Entry| entry_view(e))),
                ) + (if entries@.len() == 0 { seq![] } else { seq![COMMA] }),
                valid_entries(entries@.map_values(|e: Entry| entry_view(e))),
                forall|v: Seq<EntryView>|
                    valid_entries(v) && #[trigger] has_at(t@, pos as int, tree_text(v)) ==> {
                        &&& entries@.len() < v.len()
                        &&& entries@.map_values(|e: Entry| entry_view(e)) == v.take(entries@.len() as int)
                        &&& has_at(t@, i as int, entry_texts(v)[entries@.len() as int] + (rest_items(
                            entry_texts(v),
                            (entries@.len() + 1) as int,
                        ) + seq![CLOSE_BRACKET]))
                    },
            decreases len - i,
        {
            let ghost k = entries@.len() as int;
            let ghost read = entries@.map_values(|e: Entry| entry_view(e));
            proof {
                assert forall|v: Seq<EntryView>| valid_entries(v) && #[trigger] has_at(t@, pos as int, tree_text(v))
                    implies has_at(t@, i as int, entry_text(v[k].0, v[k].1, v[k].2, v[k].3))
                    && v[k].2.len() == 32 by {
                    lemma_tree_element(t@, i as int, v, k);
                }
            }
            let (e, j) = match Entry::read_json(t, i) {
                Some(r) => r,
                None => return None,
            };
            let ghost etext = e.text();
            entries.push(e);
            proof {
                lemma_tree_sound_step(t@, pos as int, i as int, j as int, read, entry_view(e));
                assert(entries@.map_values(|e: Entry| entry_view(e)) =~= read.push(entry_view(e)));
                assert forall|v: Seq<EntryView>| valid_entries(v) && #[trigger] has_at(t@, pos as int, tree_text(v))
                    implies entries@.map_values(|e: Entry| entry_view(e)) == v.take(k + 1)
                    && has_at(t@, j as int, rest_items(entry_texts(v), k + 1) + seq![CLOSE_BRACKET]) by {
                    lemma_tree_element(t@, i as int, v, k);
                    assert(entries@.map_values(|e: Entry| entry_view(e)) =~= v.take(k + 1));
                }
            }
            if read_byte(t, j, CLOSE_BRACKET) {
                let tr = Tree(entries);
                proof {
                    lemma_has_at(t@, j as int, seq![CLOSE_BRACKET]);
                    assert(t@[j + 0] == CLOSE_BRACKET);
                    assert(t@.subrange(pos as int, j + 1) =~= t@.subrange(pos as int, j as int) + seq![CLOSE_BRACKET]);
                    assert(t@.subrange(pos as int, j + 1) =~= tree_text(tr@));
                    assert forall|v: Seq<EntryView>| valid_entries(v) && #[trigger] has_at(t@, pos as int, tree_text(v))
                        implies tr@ == v && j + 1 == pos + tree_text(v).len() by {
                        lemma_tree_after_element(t@, j as int, v, k);
                        assert(v.take(k + 1) =~= v);
                        lemma_tree_text_len(t@, pos as int, v, j as int);
                    }
                }
                return Some((tr, j + 1));
            }
            proof {
                assert forall|v: Seq<EntryView>| valid_entries(v) && #[trigger] has_at(t@, pos as int, tree_text(v))
                    implies has_at(t@, j as int, seq![COMMA]) by {
                    lemma_tree_after_element(t@, j as int, v, k);
                }
            }
            if !read_byte(t, j, COMMA) {
                return None;
            }
            proof {
                lemma_has_at(t@, j as int, seq![COMMA]);
                assert(t@[j + 0] == COMMA);
                assert(t@.subrange(pos as int, j + 1) =~= t@.subrange(pos as int, j as int) + seq![COMMA]);
                assert forall|v: Seq<EntryView>| valid_entries(v) && #[trigger] has_at(t@, pos as int, tree_text(v))
                    implies k + 1 < v.len() && has_at(t@, j + 1, entry_texts(v)[k + 1] + (rest_items(
                    entry_texts(v), k + 2) + seq![CLOSE_BRACKET])) by {
                    lemma_tree_after_element(t@, j as int, v, k);
                }
            }
            i = j + 1;
        }
    }
}

/// Where the reader stands at element `k` of a candidate tree.
proof fn lemma_tree_element(t: Seq<u8>, i: int, v: Seq<EntryView>, k: int)
    requires
        0 <= k < v.len(),
        valid_entries(v),
        has_at(t, i, entry_texts(v)[k] + (rest_items(entry_texts(v), k + 1) + seq![CLOSE_BRACKET])),
    ensures
        has_at(t, i, entry_text(v[k].0, v[k].1, v[k].2, v[k].3)),
        v[k].2.len() == 32,
        has_at(t, i + entry_texts(v)[k].len(), rest_items(entry_texts(v), k + 1) + seq![CLOSE_BRACKET]),
{
    lemma_has_at_concat(t, i, entry_texts(v)[k], rest_items(entry_texts(v), k + 1) + seq![CLOSE_BRACKET]);
}

/// What follows element `k` of a candidate tree: its closing bracket, or a
/// comma and the next element.
proof fn lemma_tree_after_element(t: Seq<u8>, j: int, v: Seq<EntryView>, k: int)
    requires
        0 <= k < v.len(),
        has_at(t, j, rest_items(entry_texts(v), k + 1) + seq![CLOSE_BRACKET]),
    ensures
        k + 1 == v.len() ==> has_at(t, j, seq![CLOSE_BRACKET]),
        k + 1 < v.len() ==> !has_at(t, j, seq![CLOSE_BRACKET]) && has_at(t, j, seq![COMMA]) && has_at(
            t,
            j + 1,
            entry_texts(v)[k + 1] + (rest_items(entry_texts(v), k + 2) + seq![CLOSE_BRACKET]),
        ),
{
    let s = entry_texts(v);
    if k + 1 == v.len() {
        lemma_rest_items_end(s);
        assert(rest_items(s, k + 1) + seq![CLOSE_BRACKET] =~= seq![CLOSE_BRACKET]);
    } else {
        lemma_rest_items_step(s, k + 1);
        assert(rest_items(s, k + 1) + seq![CLOSE_BRACKET] =~= seq![COMMA] + (s[k + 1] + (rest_items(s, k + 2)
            + seq![CLOSE_BRACKET])));
        lemma_has_at_concat(t, j, seq![COMMA], s[k + 1] + (rest_items(s, k + 2) + seq![CLOSE_BRACKET]));
        lemma_has_at(t, j, seq![COMMA]);
        lemma_has_at(t, j, seq![CLOSE_BRACKET]);
        assert(t[j + 0] == COMMA);
    }
}

/// Reading one more entry keeps the text read so far equal to the opening
/// bracket and the entries read.
proof fn lemma_tree_sound_step(t: Seq<u8>, pos: int, i: int, j: int, read: Seq<EntryView>, x: EntryView)
    requires
        0 <= pos <= i <= j <= t.len(),
        t.subrange(pos, i) == seq![OPEN_BRACKET] + join_items(entry_texts(read)) + (if read.len() == 0 {
            seq![]
        } else {
            seq![COMMA]
        }),
        t.subrange(i, j) == entry_view_text(x),
    ensures
        t.subrange(pos, j) == seq![OPEN_BRACKET] + join_items(entry_texts(read.push(x))),
{
    assert(entry_texts(read.push(x)) =~= entry_texts(read).push(entry_view_text(x)));
    lemma_join_push(entry_texts(read), entry_view_text(x));
    assert(t.subrange(pos, j) =~= t.subrange(pos, i) + t.subrange(i, j));
    assert(t.subrange(pos, j) =~= seq![OPEN_BRACKET] + join_items(entry_texts(read.push(x))));
}

/// The length of a tree's text, from the position where the reader found its end.
proof fn lemma_tree_text_len(t: Seq<u8>, pos: int, v: Seq<EntryView>, j: int)
    requires
        has_at(t, pos, tree_text(v)),
        t.subrange(pos, j + 1) == tree_text(v),
        0 <= pos <= j,
        j + 1 <= t.len(),
    ensures
        j + 1 == pos + tree_text(v).len(),
{
}


/// The content of a file.
pub struct Blob(String);

impl View for Blob {
    type V = Seq<char>;

    closed spec fn view(&self) -> Seq<char> {
        self.0@
    }
}

/// How a blob is written: the JSON string of its content.
pub open spec fn blob_text(content: Seq<char>) -> Seq<u8> {
    json_string(content)
}

impl Blob {
    pub fn new(content: String) -> (res: Blob)
        ensures
            res@ == content@,
    {
        Blob(content)
    }

    pub fn content(&self) -> (res: &str)
        ensures
            res@ == self@,
    {
        self.0.as_str()
    }

    /// Appends the text of the blob.
    pub fn write_json(&self, out: &mut Vec<u8>)
        ensures
            final(out)@ == old(out)@ + blob_text(self@),
    {
        write_string(out, self.0.as_str());
    }

    /// Reads the text of a blob at `pos`, as `write_json` writes it.
    pub fn read_json(t: &[u8], pos: usize) -> (res: Option<(Blob, usize)>)
        ensures
            res matches Some((b, end)) ==> pos <= end <= t@.len() && t@.subrange(pos as int, end as int)
                == blob_text(b@),
            forall|c: Seq<char>| #[trigger]
                has_at(t@, pos as int, blob_text(c)) ==> (res matches Some((b, end)) && b@ == c && end
                    == pos + blob_text(c).len()),
    {
        match read_string(t, pos) {
            None => None,
            Some((s, end)) => Some((Blob(s), end)),
        }
    }
}

pub open spec fn parent_key() -> Seq<char> {
    seq!['p', 'a', 'r', 'e', 'n', 't']
}

pub open spec fn root_key() -> Seq<char> {
    seq!['r', 'o', 'o', 't']
}

pub open spec fn message_key() -> Seq<char> {
    seq!['m', 'e', 's', 's', 'a', 'g', 'e']
}

/// How the parent of a commit is written: `null`, or the id.
pub open spec fn parent_text(parent: Option<Seq<u8>>) -> Seq<u8> {
    match parent {
        None => null_text(),
        Some(o) => oid_text(o),
    }
}

/// The key of a field of a JSON object and the colon after it.
pub open spec fn field_text(key: Seq<char>) -> Seq<u8> {
    json_string(key) + seq![COLON]
}

/// How a commit is written: `{"parent":P,"root":O,"message":"M"}`.
pub open spec fn commit_text(parent: Option<Seq<u8>>, root: Seq<u8>, message: Seq<char>) -> Seq<u8> {
    let tail = json_string(message) + seq![CLOSE_BRACE];
    seq![OPEN_BRACE] + (field_text(parent_key()) + (parent_text(parent) + (seq![COMMA] + (field_text(root_key())
        + (oid_text(root) + (seq![COMMA] + (field_text(message_key()) + tail)))))))
}

/// Reads the key `key` of a field and the colon after it.
pub fn read_field_key(t: &[u8], pos: usize, key: &str) -> (res: Option<usize>)
    ensures
        res matches Some(end) ==> has_at(t@, pos as int, field_text(key@)) && end == pos + field_text(
            key@,
        ).len(),
        has_at(t@, pos as int, field_text(key@)) ==> res == Some((pos + field_text(key@).len()) as usize),
{
    proof {
        lemma_has_at_concat(t@, pos as int, json_string(key@), seq![COLON]);
    }
    let p = match read_key(t, pos, key) {
        Some(p) => p,
        None => return None,
    };
    if !read_byte(t, p, COLON) {
        return None;
    }
    Some(p + 1)
}

/// Reads the parent of a commit: `null` or an id.
pub fn read_parent(t: &[u8], pos: usize) -> (res: Option<(Option<Oid>, usize)>)
    ensures
        res matches Some((p, end)) ==> pos <= end <= t@.len() && t@.subrange(pos as int, end as int)
            == parent_text(match p {
            None => None,
            Some(o) => Some(o@),
        }),
        forall|po: Option<Seq<u8>>|
            (po matches Some(o) ==> o.len() == 32) && #[trigger] has_at(t@, pos as int, parent_text(po))
                ==> (res matches Some((p, end)) && (match p {
                None => None,
                Some(o) => Some(o@),
            }) == po && end == pos + parent_text(po).len()),
{
    if read_null(t, pos) {
        proof {
            lemma_has_at(t@, pos as int, null_text());
            assert(t@.subrange(pos as int, pos + 4) =~= null_text());
            assert forall|po: Option<Seq<u8>>|
                (po matches Some(o) ==> o.len() == 32) && #[trigger] has_at(t@, pos as int, parent_text(po))
                implies po is None by {
                if let Some(o) = po {
                    lemma_has_at(t@, pos as int, oid_text(o));
                    assert(t@[pos + 0] == oid_text(o)[0]);
                    assert(t@[pos + 0] == null_text()[0]);
                }
            }
        }
        Some((None, pos + 4))
    } else {
        match Oid::read_json(t, pos) {
            Some((o, e)) => Some((Some(o), e)),
            None => None,
        }
    }
}

/// What a commit holds, as plain values: parent id, root tree id, message.
pub type CommitView = (Option<Seq<u8>>, Seq<u8>, Seq<char>);

pub open spec fn commit_view_text(c: CommitView) -> Seq<u8> {
    commit_text(c.0, c.1, c.2)
}

pub open spec fn valid_commit(c: CommitView) -> bool {
    c.1.len() == 32 && (c.0 matches Some(p) ==> p.len() == 32)
}

/// A commit: the tree of the workspace it records, its parent and a message.
pub struct Commit {
    parent: Option<Oid>,
    root: Oid,
    message: String,
}

impl View for Commit {
    type V = CommitView;

    closed spec fn view(&self) -> CommitView {
        (
            match self.parent {
                None => None,
                Some(p) => Some(p@),
            },
            self.root@,
            self.message@,
        )
    }
}

impl Commit {
    pub fn new(parent: Option<Oid>, root: Oid, message: String) -> (res: Commit)
        ensures
            res@.0 == (match parent {
                None => None,
                Some(p) => Some(p@),
            }),
            res@.1 == root@,
            res@.2 == message@,
            valid_commit(res@),
    {
        Commit { parent, root, message }
    }

    pub fn root(&self) -> (res: &Oid)
        ensures
            res@ == self@.1,
    {
        &self.root
    }

    pub fn parent(&self) -> (res: &Option<Oid>)
        ensures
            res.is_some() == self@.0.is_some(),
            res matches Some(p) ==> self@.0 == Some(p@),
    {
        &self.parent
    }

    pub fn message(&self) -> (res: &str)
        ensures
            res@ == self@.2,
    {
        self.message.as_str()
    }

    pub proof fn lemma_valid(&self)
        ensures
            valid_commit(self@),
    {
    }

    /// Appends the text of the commit.
    #[verifier::spinoff_prover]
    pub fn write_json(&self, out: &mut Vec<u8>)
        ensures
            final(out)@ == old(out)@ + commit_view_text(self@),
    {
        proof {
            reveal_strlit("parent");
            reveal_strlit("root");
            reveal_strlit("message");
            assert("parent"@ =~= parent_key());
            assert("root"@ =~= root_key());
            assert("message"@ =~= message_key());
        }
        let ghost o0 = out@;
        out.push(OPEN_BRACE);
        write_string(out, "parent");
        out.push(COLON);
        let ghost o1 = out@;
        assert(o1 =~= o0 + seq![OPEN_BRACE] + field_text(parent_key()));
        match &self.parent {
            None => write_null(out),
            Some(p) => p.write_json(out),
        }
        out.push(COMMA);
        write_string(out, "root");
        out.push(COLON);
        let ghost o2 = out@;
        assert(o2 =~= o1 + parent_text(self@.0) + seq![COMMA] + field_text(root_key()));
        self.root.write_json(out);
        out.push(COMMA);
        write_string(out, "message");
        out.push(COLON);
        let ghost o3 = out@;
        assert(o3 =~= o2 + oid_text(self@.1) + seq![COMMA] + field_text(message_key()));
        write_string(out, self.message.as_str());
        out.push(CLOSE_BRACE);
        assert(out@ =~= o3 + json_string(self@.2) + seq![CLOSE_BRACE]);
        assert(out@ =~= old(out)@ + commit_view_text(self@));
    }

    /// Reads the text of a commit at `pos`, as `write_json` writes it.
    #[verifier::spinoff_prover]
    #[verifier::rlimit(60)]
    pub fn read_json(t: &[u8], pos: usize) -> (res: Option<(Commit, usize)>)
        ensures
            res matches Some((c, end)) ==> pos <= end <= t@.len() && t@.subrange(pos as int, end as int)
                == commit_view_text(c@),
            forall|c: CommitView|
                valid_commit(c) && #[trigger] has_at(t@, pos as int, commit_view_text(c)) ==> (res matches Some(
                    (r, end),
                ) && r@ == c && end == pos + commit_view_text(c).len()),
    {
        let len = t.len();
        let ghost cand: Option<CommitView> = if exists|c: CommitView| valid_commit(c) && #[trigger] has_at(
            t@,
            pos as int,
            commit_view_text(c),
        ) {
            Some(choose|c: CommitView| valid_commit(c) && #[trigger] has_at(t@, pos as int, commit_view_text(c)))
        } else {
            None
        };
        proof {
            reveal_strlit("parent");
            reveal_strlit("root");
            reveal_strlit("message");
            assert("parent"@ =~= parent_key());
            assert("root"@ =~= root_key());
            assert("message"@ =~= message_key());
            if let Some(c) = cand {
                lemma_commit_parts(t@, pos as int, c);
            }
        }
        if !read_byte(t, pos, OPEN_BRACE) {
            return None;
        }
        let p1 = match read_field_key(t, pos + 1, "parent") {
            Some(p) => p,
            None => return None,
        };
        let (parent, p2) = match read_parent(t, p1) {
            Some(r) => r,
            None => return None,
        };
        if !read_byte(t, p2, COMMA) {
            return None;
        }
        let p3 = match read_field_key(t, p2 + 1, "root") {
            Some(p) => p,
            None => return None,
        };
        let (root, p4) = match Oid::read_json(t, p3) {
            Some(r) => r,
            None => return None,
        };
        if !read_byte(t, p4, COMMA) {
            return None;
        }
        let p5 = match read_field_key(t, p4 + 1, "message") {
            Some(p) => p,
            None => return None,
        };
        let (message, p6) = match read_string(t, p5) {
            Some(r) => r,
            None => return None,
        };
        if !read_byte(t, p6, CLOSE_BRACE) {
            return None;
        }
        let c = Commit { parent, root, message };
        proof {
            lemma_commit_sound(t@, pos as int, p1 as int, p2 as int, p3 as int, p4 as int, p5 as int, p6 as int, c@);
            assert forall|x: CommitView| valid_commit(x) && #[trigger] has_at(t@, pos as int, commit_view_text(x))
                implies c@ == x && p6 + 1 == pos + commit_view_text(x).len() by {
                lemma_commit_parts(t@, pos as int, x);
            }
        }
        Some((c, p6 + 1))
    }
}

/// The text read by `Commit::read_json` is the text of the commit it returns.
proof fn lemma_commit_sound(t: Seq<u8>, pos: int, p1: int, p2: int, p3: int, p4: int, p5: int, p6: int, c: CommitView)
    requires
        0 <= pos,
        p6 < t.len(),
        has_at(t, pos, seq![OPEN_BRACE]),
        has_at(t, pos + 1, field_text(parent_key())),
        p1 == pos + 1 + field_text(parent_key()).len(),
        p1 <= p2,
        t.subrange(p1, p2) == parent_text(c.0),
        has_at(t, p2, seq![COMMA]),
        has_at(t, p2 + 1, field_text(root_key())),
        p3 == p2 + 1 + field_text(root_key()).len(),
        p3 <= p4,
        t.subrange(p3, p4) == oid_text(c.1),
        has_at(t, p4, seq![COMMA]),
        has_at(t, p4 + 1, field_text(message_key())),
        p5 == p4 + 1 + field_text(message_key()).len(),
        p5 <= p6,
        t.subrange(p5, p6) == json_string(c.2),
        has_at(t, p6, seq![CLOSE_BRACE]),
    ensures
        t.subrange(pos, p6 + 1) == commit_view_text(c),
{
    lemma_has_at(t, pos, seq![OPEN_BRACE]);
    lemma_has_at(t, p2, seq![COMMA]);
    lemma_has_at(t, p4, seq![COMMA]);
    lemma_has_at(t, p6, seq![CLOSE_BRACE]);
    assert(t[pos + 0] == OPEN_BRACE);
    assert(t[p2 + 0] == COMMA);
    assert(t[p4 + 0] == COMMA);
    assert(t[p6 + 0] == CLOSE_BRACE);
    assert(t.subrange(pos, p6 + 1) =~= t.subrange(pos, pos + 1) + t.subrange(pos + 1, p1) + t.subrange(p1, p2)
        + t.subrange(p2, p2 + 1) + t.subrange(p2 + 1, p3) + t.subrange(p3, p4) + t.subrange(p4, p4 + 1)
        + t.subrange(p4 + 1, p5) + t.subrange(p5, p6) + t.subrange(p6, p6 + 1));
    assert(t.subrange(pos, pos + 1) =~= seq![OPEN_BRACE]);
    assert(t.subrange(p2, p2 + 1) =~= seq![COMMA]);
    assert(t.subrange(p4, p4 + 1) =~= seq![COMMA]);
    assert(t.subrange(p6, p6 + 1) =~= seq![CLOSE_BRACE]);
    assert(t.subrange(pos, p6 + 1) =~= commit_view_text(c));
}

/// The pieces of a commit's text as a reader meets them.
pub open spec fn commit_parts(t: Seq<u8>, pos: int, c: CommitView) -> bool {
    let p1 = pos + 1 + field_text(parent_key()).len();
    let p2 = p1 + parent_text(c.0).len();
    let p3 = p2 + 1 + field_text(root_key()).len();
    let p4 = p3 + oid_text(c.1).len();
    let p5 = p4 + 1 + field_text(message_key()).len();
    let p6 = p5 + json_string(c.2).len();
    &&& has_at(t, pos, seq![OPEN_BRACE])
    &&& has_at(t, pos + 1, field_text(parent_key()))
    &&& has_at(t, p1, parent_text(c.0))
    &&& has_at(t, p2, seq![COMMA])
    &&& has_at(t, p2 + 1, field_text(root_key()))
    &&& has_at(t, p3, oid_text(c.1))
    &&& has_at(t, p4, seq![COMMA])
    &&& has_at(t, p4 + 1, field_text(message_key()))
    &&& has_at(t, p5, json_string(c.2))
    &&& has_at(t, p6, seq![CLOSE_BRACE])
    &&& p6 + 1 == pos + commit_view_text(c).len()
}

proof fn lemma_commit_parts(t: Seq<u8>, pos: int, c: CommitView)
    requires
        has_at(t, pos, commit_view_text(c)),
    ensures
        commit_parts(t, pos, c),
{
    let k1 = field_text(parent_key());
    let pt = parent_text(c.0);
    let k2 = field_text(root_key());
    let o = oid_text(c.1);
    let k3 = field_text(message_key());
    let m = json_string(c.2);
    let r9 = seq![CLOSE_BRACE];
    let r8 = m + r9;
    let r7 = k3 + r8;
    let r6 = seq![COMMA] + r7;
    let r5 = o + r6;
    let r4 = k2 + r5;
    let r3 = seq![COMMA] + r4;
    let r2 = pt + r3;
    let r1 = k1 + r2;
    lemma_has_at_concat(t, pos, seq![OPEN_BRACE], r1);
    lemma_has_at_concat(t, pos + 1, k1, r2);
    let p1 = pos + 1 + k1.len();
    lemma_has_at_concat(t, p1, pt, r3);
    let p2 = p1 + pt.len();
    lemma_has_at_concat(t, p2, seq![COMMA], r4);
    lemma_has_at_concat(t, p2 + 1, k2, r5);
    let p3 = p2 + 1 + k2.len();
    lemma_has_at_concat(t, p3, o, r6);
    let p4 = p3 + o.len();
    lemma_has_at_concat(t, p4, seq![COMMA], r7);
    lemma_has_at_concat(t, p4 + 1, k3, r8);
    let p5 = p4 + 1 + k3.len();
    lemma_has_at_concat(t, p5, m, r9);
}


proof fn lemma_whole_text(t: Seq<u8>, x: Seq<u8>)
    requires
        x == t,
    ensures
        has_at(t, 0, x),
{
    assert(t.subrange(0, x.len() as int) =~= x);
}

pub proof fn lemma_tree_valid(tr: &Tree)
    ensures
        valid_entries(tr@),
{
    assert forall|j: int| 0 <= j < tr@.len() implies (#[trigger] tr@[j]).2.len() == 32 by {
        assert(tr@[j].2 == tr.0@[j].2@);
    }
}

impl Object for Blob {
    open spec fn text_of(v: Seq<char>) -> Seq<u8> {
        blob_text(v)
    }

    open spec fn valid_view(v: Seq<char>) -> bool {
        true
    }

    proof fn lemma_valid(&self) {
    }

    fn to_json(&self) -> (res: Vec<u8>) {
        let mut out = Vec::new();
        self.write_json(&mut out);
        assert(out@ =~= blob_text(self@));
        out
    }

    fn from_json(t: &[u8]) -> (res: Option<Blob>) {
        proof {
            assert forall|c: Seq<char>| blob_text(c) == t@ implies has_at(t@, 0, blob_text(c)) by {
                lemma_whole_text(t@, blob_text(c));
            }
        }
        match Blob::read_json(t, 0) {
            Some((b, end)) => {
                if end == t.len() {
                    assert(t@.subrange(0, end as int) =~= t@);
                    Some(b)
                } else {
                    None
                }
            },
            None => None,
        }
    }
}

impl Object for Commit {
    open spec fn text_of(v: CommitView) -> Seq<u8> {
        commit_view_text(v)
    }

    open spec fn valid_view(v: CommitView) -> bool {
        valid_commit(v)
    }

    proof fn lemma_valid(&self) {
    }

    fn to_json(&self) -> (res: Vec<u8>) {
        let mut out = Vec::new();
        self.write_json(&mut out);
        assert(out@ =~= commit_view_text(self@));
        out
    }

    fn from_json(t: &[u8]) -> (res: Option<Commit>) {
        proof {
            assert forall|c: CommitView| valid_commit(c) && commit_view_text(c) == t@ implies has_at(t@, 0, commit_view_text(c)) by {
                lemma_whole_text(t@, commit_view_text(c));
            }
        }
        match Commit::read_json(t, 0) {
            Some((c, end)) => {
                if end == t.len() {
                    assert(t@.subrange(0, end as int) =~= t@);
                    Some(c)
                } else {
                    None
                }
            },
            None => None,
        }
    }
}

impl Object for Tree {
    open spec fn text_of(v: Seq<EntryView>) -> Seq<u8> {
        tree_text(v)
    }

    open spec fn valid_view(v: Seq<EntryView>) -> bool {
        valid_entries(v)
    }

    proof fn lemma_valid(&self) {
        lemma_tree_valid(self);
    }

    fn to_json(&self) -> (res: Vec<u8>) {
        let mut out = Vec::new();
        self.write_json(&mut out);
        assert(out@ =~= tree_text(self@));
        out
    }

    fn from_json(t: &[u8]) -> (res: Option<Tree>) {
        proof {
            assert forall|v: Seq<EntryView>| valid_entries(v) && tree_text(v) == t@ implies has_at(t@, 0, tree_text(v)) by {
                lemma_whole_text(t@, tree_text(v));
            }
        }
        match Tree::read_json(t, 0) {
            Some((tr, end)) => {
                if end == t.len() {
                    assert(t@.subrange(0, end as int) =~= t@);
                    Some(tr)
                } else {
                    None
                }
            },
            None => None,
        }
    }
}

/// Whether `t` is the stored text of a blob, a tree or a commit.
pub open spec fn is_object_text(t: Seq<u8>) -> bool {
    is_text_of::<Blob>(t) || is_text_of::<Tree>(t) || is_text_of::<Commit>(t)
}

/// Under the digest of the text of some blob, tree or commit, `db` holds a
/// different text, so that object cannot be stored.
pub open spec fn collides(db: Map<Seq<u8>, Seq<u8>>) -> bool {
    exists|t: Seq<u8>| is_object_text(t) && #[trigger] db.contains_key(sha256_digest(t)) && db[sha256_digest(t)] != t
}

} // verus!
