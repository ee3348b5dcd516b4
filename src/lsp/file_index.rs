//! Lists of values grouped by file name, files in order of first appearance.
use vstd::prelude::*;

verus! {

/// The position of the first entry for `key`, or -1.
pub open spec fn find_key<V>(s: Seq<(Seq<char>, V)>, key: Seq<char>) -> int
    decreases s.len(),
{
    if s.len() == 0 {
        -1
    } else {
        let i = find_key(s.drop_last(), key);
        if i >= 0 {
            i
        } else if s.last().0 == key {
            s.len() - 1
        } else {
            -1
        }
    }
}

/// Appends `v` to the list of `key`, starting a new list at the end where `key` has none.
pub open spec fn index_push<V>(s: Seq<(Seq<char>, Seq<V>)>, key: Seq<char>, v: V) -> Seq<
    (Seq<char>, Seq<V>),
> {
    let i = find_key(s, key);
    if i >= 0 {
        s.update(i, (key, s[i].1.push(v)))
    } else {
        s.push((key, seq![v]))
    }
}

proof fn lemma_find_key_absent<V>(s: Seq<(Seq<char>, V)>, key: Seq<char>)
    requires
        forall|j: int| 0 <= j < s.len() ==> (#[trigger] s[j]).0 != key,
    ensures
        find_key(s, key) == -1,
    decreases s.len(),
{
    if s.len() > 0 {
        lemma_find_key_absent(s.drop_last(), key);
    }
}

proof fn lemma_find_key_first<V>(s: Seq<(Seq<char>, V)>, key: Seq<char>, i: int)
    requires
        0 <= i < s.len(),
        s[i].0 == key,
        forall|j: int| 0 <= j < i ==> (#[trigger] s[j]).0 != key,
    ensures
        find_key(s, key) == i,
    decreases s.len(),
{
    if i < s.len() - 1 {
        lemma_find_key_first(s.drop_last(), key, i);
    } else {
        lemma_find_key_absent(s.drop_last(), key);
    }
}

proof fn lemma_find_key_none<V>(s: Seq<(Seq<char>, V)>, key: Seq<char>)
    requires
        find_key(s, key) == -1,
    ensures
        forall|j: int| 0 <= j < s.len() ==> (#[trigger] s[j]).0 != key,
    decreases s.len(),
{
    if s.len() > 0 {
        lemma_find_key_none(s.drop_last(), key);
        assert forall|j: int| 0 <= j < s.len() implies (#[trigger] s[j]).0 != key by {
            if j < s.len() - 1 {
                assert(s[j] == s.drop_last()[j]);
            }
        }
    }
}

proof fn lemma_find_key_found<V>(s: Seq<(Seq<char>, V)>, key: Seq<char>)
    ensures
        find_key(s, key) >= 0 ==> find_key(s, key) < s.len() && s[find_key(s, key)].0 == key,
        find_key(s, key) >= -1,
    decreases s.len(),
{
    if s.len() > 0 {
        lemma_find_key_found(s.drop_last(), key);
    }
}

/// The views of a sequence of values.
pub open spec fn views<T: View>(s: Seq<T>) -> Seq<T::V> {
    s.map_values(|t: T| t@)
}

/// Lists of values keyed by file name.
pub struct FileIndex<T> {
    pub keys: Vec<String>,
    pub lists: Vec<Vec<T>>,
}

impl<T: View> FileIndex<T> {
    /// One list per key, and no key twice.
    pub open spec fn wf(&self) -> bool {
        &&& self.keys@.len() == self.lists@.len()
        &&& forall|i: int, j: int|
            0 <= i < j < self.keys@.len() ==> (#[trigger] self.keys@[i])@ != (
            #[trigger] self.keys@[j])@
    }

    pub open spec fn entries(&self) -> Seq<(Seq<char>, Seq<T::V>)> {
        Seq::new(
            self.keys@.len(),
            |i: int| (self.keys@[i]@, views(self.lists@[i]@)),
        )
    }

    pub fn new() -> (r: Self)
        ensures
            r.wf(),
            r.entries().len() == 0,
    {
        FileIndex { keys: Vec::new(), lists: Vec::new() }
    }

    /// The number of files.
    pub fn len(&self) -> (r: usize)
        requires
            self.wf(),
        ensures
            r == self.entries().len(),
    {
        self.keys.len()
    }

    pub fn is_empty(&self) -> (r: bool)
        requires
            self.wf(),
        ensures
            r == (self.entries().len() == 0),
    {
        self.keys.len() == 0
    }

    fn position(&self, key: &str) -> (r: Option<usize>)
        requires
            self.wf(),
        ensures
            match r {
                Some(i) => i == find_key(self.entries(), key@) && i < self.keys@.len(),
                None => find_key(self.entries(), key@) == -1,
            },
    {
        let k = String::from_str(key);
        let mut i: usize = 0;
        while i < self.keys.len()
            invariant
                self.wf(),
                k@ == key@,
                i <= self.keys@.len(),
                forall|j: int| 0 <= j < i ==> (#[trigger] self.entries()[j]).0 != key@,
            decreases self.keys@.len() - i,
        {
            if self.keys[i] == k {
                proof {
                    lemma_find_key_first(self.entries(), key@, i as int);
                }
                return Some(i);
            }
            i = i + 1;
        }
        proof {
            lemma_find_key_absent(self.entries(), key@);
        }
        None
    }

    /// The list of `key`, if it has one.
    pub fn get(&self, key: &str) -> (r: Option<&Vec<T>>)
        requires
            self.wf(),
        ensures
            match r {
                Some(v) => {
                    let i = find_key(self.entries(), key@);
                    i >= 0 && views(v@) == self.entries()[i].1
                },
                None => find_key(self.entries(), key@) == -1,
            },
    {
        match self.position(key) {
            Some(i) => Some(&self.lists[i]),
            None => None,
        }
    }

    /// Appends `v` to the list of `key`.
    pub fn push_to(&mut self, key: &String, v: T)
        requires
            old(self).wf(),
        ensures
            final(self).wf(),
            final(self).entries() == index_push(old(self).entries(), key@, v@),
    {
        match self.position(key.as_str()) {
            Some(i) => {
                let ghost before = self.lists@[i as int]@;
                proof {
                    lemma_find_key_found(self.entries(), key@);
                }
                self.lists[i].push(v);
                proof {
                    assert(self.lists@[i as int]@ =~= before.push(v));
                    assert(views(self.lists@[i as int]@) =~= old(self).entries()[i as int].1.push(
                        v@,
                    ));
                    assert forall|j: int|
                        0 <= j < self.keys@.len() && j != i implies self.lists@[j] == old(
                        self,
                    ).lists@[j] by {}
                    assert(self.entries() =~= index_push(old(self).entries(), key@, v@));
                }
            },
            None => {
                proof {
                    lemma_find_key_none(self.entries(), key@);
                    assert forall|j: int| 0 <= j < self.keys@.len() implies self.keys@[j]@ != key@ by {
                        assert(self.entries()[j].0 == self.keys@[j]@);
                    }
                }
                self.keys.push(key.clone());
                let mut l: Vec<T> = Vec::new();
                l.push(v);
                self.lists.push(l);
                proof {
                    assert(views(self.lists@.last()@) =~= seq![v@]);
                    assert(self.entries() =~= index_push(old(self).entries(), key@, v@));
                }
            },
        }
    }
}

} // verus!
