//! The object database: objects stored under the digest of their text.
use vstd::prelude::*;
use crate::error::{repository_error, Error};
use crate::oid::{lemma_oid_len, sha256_digest, Oid};

verus! {

broadcast use lemma_oid_len;

/// A kind of object that is stored as text. Its view is what the object holds;
/// `text_of` says how it is written, and reading a text gives back exactly the
/// object it is the text of.
pub trait Object: View + Sized {
    /// The text an object with view `v` is stored as.
    spec fn text_of(v: Self::V) -> Seq<u8>;

    /// The views an object of this kind can have.
    spec fn valid_view(v: Self::V) -> bool;

    proof fn lemma_valid(&self)
        ensures
            Self::valid_view(self@),
    ;

    /// The stored text of the object.
    fn to_json(&self) -> (res: Vec<u8>)
        ensures
            res@ == Self::text_of(self@),
    ;

    /// The object whose stored text is `t`, if there is one.
    fn from_json(t: &[u8]) -> (res: Option<Self>)
        ensures
            res matches Some(o) ==> Self::text_of(o@) == t@ && Self::valid_view(o@),
            forall|v: Self::V| Self::valid_view(v) && Self::text_of(v) == t@ ==> (res matches Some(o) && o@ == v),
    ;
}

/// Whether `t` is the stored text of some object of kind `O`.
pub open spec fn is_text_of<O: Object>(t: Seq<u8>) -> bool {
    exists|v: O::V| O::valid_view(v) && O::text_of(v) == t
}

/// The map from ids to texts held by a sequence of stored objects.
pub open spec fn objects_map(s: Seq<(Oid, Vec<u8>)>) -> Map<Seq<u8>, Seq<u8>>
    decreases s.len(),
{
    if s.len() == 0 {
        Map::empty()
    } else {
        objects_map(s.drop_last()).insert(s.last().0@, s.last().1@)
    }
}

proof fn lemma_objects_map(s: Seq<(Oid, Vec<u8>)>)
    requires
        forall|i: int, j: int| 0 <= i < j < s.len() ==> s[i].0@ != s[j].0@,
    ensures
        forall|k: Seq<u8>| #[trigger] objects_map(s).contains_key(k) <==> exists|i: int| 0 <= i < s.len() && s[i].0@ == k,
        forall|i: int| 0 <= i < s.len() ==> #[trigger] objects_map(s)[s[i].0@] == s[i].1@,
    decreases s.len(),
{
    if s.len() > 0 {
        let p = s.drop_last();
        assert forall|i: int, j: int| 0 <= i < j < p.len() implies p[i].0@ != p[j].0@ by {
            assert(p[i] == s[i]);
            assert(p[j] == s[j]);
        }
        lemma_objects_map(p);
        let m = objects_map(p);
        assert(objects_map(s) == m.insert(s.last().0@, s.last().1@));
        assert(s[s.len() - 1] == s.last());
        assert forall|k: Seq<u8>| #[trigger] objects_map(s).contains_key(k) <==> exists|i: int| 0 <= i < s.len() && s[i].0@ == k by {
            if objects_map(s).contains_key(k) && k != s.last().0@ {
                assert(objects_map(p).contains_key(k));
                let i = choose|i: int| 0 <= i < p.len() && p[i].0@ == k;
                assert(s[i] == p[i]);
            }
            if exists|i: int| 0 <= i < s.len() && s[i].0@ == k {
                let i = choose|i: int| 0 <= i < s.len() && s[i].0@ == k;
                if i < p.len() {
                    assert(s[i] == p[i]);
                }
            }
        }
        assert forall|i: int| 0 <= i < s.len() implies #[trigger] objects_map(s)[s[i].0@] == s[i].1@ by {
            if i < p.len() {
                assert(s[i] == p[i]);
                assert(s[i].0@ != s.last().0@);
            }
        }
    }
}

/// The database `after` is `before` with `text` stored under `id`.
pub open spec fn stored_as(before: Map<Seq<u8>, Seq<u8>>, after: Map<Seq<u8>, Seq<u8>>, text: Seq<u8>, id: Seq<u8>) -> bool {
    &&& after.contains_key(id)
    &&& after[id] == text
    &&& after == before.insert(id, text)
}

/// The database holds under `id` the text of an object with view `v`.
pub open spec fn retrieved_as<O: Object>(db: Map<Seq<u8>, Seq<u8>>, id: Seq<u8>, v: O::V) -> bool {
    &&& db.contains_key(id)
    &&& O::valid_view(v)
    &&& O::text_of(v) == db[id]
}

/// Reading back what was stored: after an object with view `v` is stored under
/// `id`, reading the object stored under `id` gives an object with view `v`.
pub proof fn lemma_retrieve_after_store<O: Object>(
    before: Map<Seq<u8>, Seq<u8>>,
    after: Map<Seq<u8>, Seq<u8>>,
    v: O::V,
    id: Seq<u8>,
)
    requires
        O::valid_view(v),
        stored_as(before, after, O::text_of(v), id),
    ensures
        retrieved_as::<O>(after, id, v),
{
}

/// The database of the texts `ts` stored in turn, each under its digest,
/// a text whose digest is taken already being left out.
pub open spec fn loaded(ts: Seq<Seq<u8>>) -> Map<Seq<u8>, Seq<u8>>
    decreases ts.len(),
{
    if ts.len() == 0 {
        Map::empty()
    } else {
        let m = loaded(ts.drop_last());
        let id = sha256_digest(ts.last());
        if m.contains_key(id) {
            m
        } else {
            m.insert(id, ts.last())
        }
    }
}

/// The stored objects: each under the digest of its text.
pub struct Database {
    objects: Vec<(Oid, Vec<u8>)>,
}

impl Database {
    /// Ids are unique and each is the digest of the text stored under it.
    pub closed spec fn wf(&self) -> bool {
        &&& forall|i: int, j: int| 0 <= i < j < self.objects@.len() ==> self.objects@[i].0@ != self.objects@[j].0@
        &&& forall|i: int| 0 <= i < self.objects@.len() ==> #[trigger] self.objects@[i].0@ == sha256_digest(
            self.objects@[i].1@,
        )
    }

    /// The stored texts, by id.
    pub closed spec fn view(&self) -> Map<Seq<u8>, Seq<u8>> {
        objects_map(self.objects@)
    }

    /// Every stored text is held under its digest.
    pub proof fn lemma_content_addressed(&self)
        requires
            self.wf(),
        ensures
            forall|k: Seq<u8>| #[trigger] self.view().contains_key(k) ==> k == sha256_digest(self.view()[k]),
            self.view().dom().finite(),
    {
        lemma_objects_map(self.objects@);
        assert forall|k: Seq<u8>| #[trigger] self.view().contains_key(k) implies k == sha256_digest(self.view()[k]) by {
            let i = choose|i: int| 0 <= i < self.objects@.len() && self.objects@[i].0@ == k;
            assert(self.objects@[i].0@ == sha256_digest(self.objects@[i].1@));
        }
        lemma_objects_map_finite(self.objects@);
    }

    /// The name of the directory that holds the objects.
    pub fn name() -> (res: &'static str)
        ensures
            res@ == seq!['o', 'b', 'j', 'e', 'c', 't', 's'],
    {
        proof {
            reveal_strlit("objects");
        }
        let r = "objects";
        assert(r@ =~= seq!['o', 'b', 'j', 'e', 'c', 't', 's']);
        r
    }

    /// An empty database, as a new repository has.
    pub fn init() -> (res: Database)
        ensures
            res.wf(),
            res.view() == Map::<Seq<u8>, Seq<u8>>::empty(),
    {
        Database { objects: Vec::new() }
    }

    /// The database holding the stored texts `texts`, each under its digest;
    /// of two texts with the same digest the first is kept.
    pub fn build(texts: &Vec<Vec<u8>>) -> (res: Database)
        ensures
            res.wf(),
            res.view() == loaded(texts@.map_values(|t: Vec<u8>| t@)),
    {
        let ghost tv = texts@.map_values(|t: Vec<u8>| t@);
        let mut db = Database::init();
        let n = texts.len();
        let mut i: usize = 0;
        assert(tv.take(0) =~= Seq::<Seq<u8>>::empty());
        while i < n
            invariant
                i <= n,
                n == tv.len(),
                tv == texts@.map_values(|t: Vec<u8>| t@),
                db.wf(),
                db.view() == loaded(tv.take(i as int)),
            decreases n - i,
        {
            let t = texts[i].clone();
            assert(t@ =~= tv[i as int]);
            assert(tv.take(i + 1).drop_last() =~= tv.take(i as int));
            let _ = db.insert_text(t);
            i = i + 1;
        }
        assert(tv.take(n as int) =~= tv);
        db
    }

    /// The number of stored objects.
    pub fn len(&self) -> (res: usize)
        requires
            self.wf(),
        ensures
            res == self.view().len(),
    {
        proof {
                lemma_objects_map_len(self.objects@);
        }
        self.objects.len()
    }

    /// The index of the object stored under `oid`, if any.
    fn find(&self, oid: &Oid) -> (res: Option<usize>)
        requires
            self.wf(),
        ensures
            res matches Some(i) ==> i < self.objects@.len() && self.objects@[i as int].0@ == oid@,
            res is None ==> !self.view().contains_key(oid@),
            res is Some <==> self.view().contains_key(oid@),
    {
        proof {
                lemma_objects_map(self.objects@);
        }
        let n = self.objects.len();
        let mut i: usize = 0;
        while i < n
            invariant
                i <= n,
                n == self.objects@.len(),
                self.wf(),
                forall|j: int| 0 <= j < i ==> self.objects@[j].0@ != oid@,
            decreases n - i,
        {
            if self.objects[i].0.same(oid) {
                proof {
                    lemma_objects_map(self.objects@);
                    assert(self.objects@[i as int].0@ == oid@);
                    assert(self.view().contains_key(oid@));
                }
                return Some(i);
            }
            i = i + 1;
        }
        None
    }

    /// Whether an object is stored under `oid`.
    pub fn contains(&self, oid: &Oid) -> (res: bool)
        requires
            self.wf(),
        ensures
            res == self.view().contains_key(oid@),
    {
        self.find(oid).is_some()
    }

    /// The stored text under `oid`, if any.
    pub fn text(&self, oid: &Oid) -> (res: Option<&Vec<u8>>)
        requires
            self.wf(),
        ensures
            res is Some <==> self.view().contains_key(oid@),
            res matches Some(t) ==> t@ == self.view()[oid@],
    {
        proof {
                lemma_objects_map(self.objects@);
        }
        match self.find(oid) {
            None => None,
            Some(i) => Some(&self.objects[i].1),
        }
    }

    /// Adds a text as stored under its digest, unless an object is already
    /// stored there; returns the id and whether the stored text is `text`.
    pub fn insert_text(&mut self, text: Vec<u8>) -> (res: (Oid, bool))
        requires
            old(self).wf(),
        ensures
            final(self).wf(),
            res.0@ == sha256_digest(text@),
            !old(self).view().contains_key(res.0@) ==> final(self).view() == old(self).view().insert(
                res.0@,
                text@,
            ) && res.1,
            old(self).view().contains_key(res.0@) ==> final(self).view() == old(self).view() && res.1 == (
            old(self).view()[res.0@] == text@),
    {
        let oid = Oid::of_bytes(text.as_slice());
        proof {
            lemma_objects_map(self.objects@);
        }
        match self.find(&oid) {
            Some(i) => {
                let same = bytes_equal(self.objects[i].1.as_slice(), text.as_slice());
                (oid, same)
            },
            None => {
                let ghost old_objects = self.objects@;
                self.objects.push((oid, text));
                proof {
                    assert(self.objects@.drop_last() =~= old_objects);
                    assert forall|i: int, j: int| 0 <= i < j < self.objects@.len() implies self.objects@[i].0@
                        != self.objects@[j].0@ by {
                        if j == old_objects.len() {
                            assert(self.objects@[i] == old_objects[i]);
                        } else {
                            assert(self.objects@[i] == old_objects[i]);
                            assert(self.objects@[j] == old_objects[j]);
                        }
                    }
                    assert forall|i: int| 0 <= i < self.objects@.len() implies #[trigger] self.objects@[i].0@
                        == sha256_digest(self.objects@[i].1@) by {
                        if i < old_objects.len() {
                            assert(self.objects@[i] == old_objects[i]);
                        }
                    }
                }
                (oid, true)
            },
        }
    }

    /// Stores an object under the digest of its text and returns the id.
    /// When a different text is already stored under that id, the object is
    /// not stored and an error is returned.
    pub fn store<O: Object>(&mut self, o: &O) -> (res: Result<Oid, Error>)
        requires
            old(self).wf(),
        ensures
            final(self).wf(),
            O::valid_view(o@),
            ({
                let text = O::text_of(o@);
                let id = sha256_digest(text);
                &&& res matches Ok(oid) ==> oid@ == id && stored_as(old(self).view(), final(self).view(), text, id)
                &&& res is Err <==> (old(self).view().contains_key(id) && old(self).view()[id] != text)
                &&& res is Err ==> final(self).view() == old(self).view()
                &&& res matches Err(e) ==> repository_error(e, "a different object is stored under this id"@)
            }),
    {
        proof {
            o.lemma_valid();
        }
        let text = o.to_json();
        let (oid, same) = self.insert_text(text);
        if same {
            proof {
                if old(self).view().contains_key(oid@) {
                    assert(self.view() =~= old(self).view().insert(oid@, O::text_of(o@)));
                }
            }
            Ok(oid)
        } else {
            Err(Error::Repository(String::from_str("a different object is stored under this id")))
        }
    }

    /// The id an object would be stored under.
    pub fn get_oid<O: Object>(&self, o: &O) -> (res: Oid)
        requires
            self.wf(),
        ensures
            res@ == sha256_digest(O::text_of(o@)),
    {
        let text = o.to_json();
        Oid::of_bytes(text.as_slice())
    }

    /// The object stored under `oid`.
    pub fn retrieve<O: Object>(&self, oid: &Oid) -> (res: Result<O, Error>)
        requires
            self.wf(),
        ensures
            res matches Ok(o) ==> self.view().contains_key(oid@) && O::text_of(o@) == self.view()[oid@]
                && O::valid_view(o@),
            forall|v: O::V| retrieved_as::<O>(self.view(), oid@, v) ==> (res matches Ok(o) && o@ == v),
            res is Err <==> !self.view().contains_key(oid@) || !is_text_of::<O>(self.view()[oid@]),
            res matches Err(e) ==> repository_error(e, if self.view().contains_key(oid@) {
                "stored object cannot be read"@
            } else {
                "such object not found"@
            }),
    {
        match self.text(oid) {
            None => Err(Error::Repository(String::from_str("such object not found"))),
            Some(t) => match O::from_json(t.as_slice()) {
                Some(o) => Ok(o),
                None => Err(Error::Repository(String::from_str("stored object cannot be read"))),
            },
        }
    }

    /// The ids of all stored objects.
    pub fn oids(&self) -> (res: Vec<Oid>)
        requires
            self.wf(),
        ensures
            forall|k: Seq<u8>| self.view().contains_key(k) <==> exists|i: int| 0 <= i < res@.len() && #[trigger] res@[i]@ == k,
    {
        proof {
                lemma_objects_map(self.objects@);
        }
        let mut res: Vec<Oid> = Vec::new();
        let n = self.objects.len();
        let mut i: usize = 0;
        while i < n
            invariant
                i <= n,
                n == self.objects@.len(),
                res@.len() == i,
                forall|j: int| 0 <= j < i ==> #[trigger] res@[j]@ == self.objects@[j].0@,
            decreases n - i,
        {
            res.push(self.objects[i].0);
            i = i + 1;
        }
        proof {
            assert forall|k: Seq<u8>| self.view().contains_key(k) <==> exists|i: int| 0 <= i < res@.len() && #[trigger] res@[i]@ == k by {
                if self.view().contains_key(k) {
                    let j = choose|j: int| 0 <= j < self.objects@.len() && self.objects@[j].0@ == k;
                    assert(res@[j]@ == k);
                }
            }
        }
        res
    }
}

/// Whether two byte sequences are equal.
pub fn bytes_equal(a: &[u8], b: &[u8]) -> (res: bool)
    ensures
        res == (a@ == b@),
{
    if a.len() != b.len() {
        return false;
    }
    let n = a.len();
    let mut i: usize = 0;
    while i < n
        invariant
            i <= n,
            n == a@.len(),
            n == b@.len(),
            forall|j: int| 0 <= j < i ==> a@[j] == b@[j],
        decreases n - i,
    {
        if a[i] != b[i] {
            return false;
        }
        i = i + 1;
    }
    assert(a@ =~= b@);
    true
}

proof fn lemma_objects_map_finite(s: Seq<(Oid, Vec<u8>)>)
    ensures
        objects_map(s).dom().finite(),
    decreases s.len(),
{
    if s.len() > 0 {
        lemma_objects_map_finite(s.drop_last());
    }
}

proof fn lemma_objects_map_len(s: Seq<(Oid, Vec<u8>)>)
    requires
        forall|i: int, j: int| 0 <= i < j < s.len() ==> s[i].0@ != s[j].0@,
    ensures
        objects_map(s).len() == s.len(),
        objects_map(s).dom().finite(),
    decreases s.len(),
{
    if s.len() > 0 {
        let p = s.drop_last();
        assert forall|i: int, j: int| 0 <= i < j < p.len() implies p[i].0@ != p[j].0@ by {
            assert(p[i] == s[i]);
            assert(p[j] == s[j]);
        }
        lemma_objects_map_len(p);
        lemma_objects_map(p);
        assert(!objects_map(p).contains_key(s.last().0@)) by {
            if objects_map(p).contains_key(s.last().0@) {
                let i = choose|i: int| 0 <= i < p.len() && p[i].0@ == s.last().0@;
                assert(s[i] == p[i]);
            }
        }
    }
}

} // verus!
