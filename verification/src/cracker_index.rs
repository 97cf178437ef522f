//! A cracker index kept as a dense array: entry `k` holds the position at which the
//! piece of values `>= k` starts, when that is known.

use vstd::prelude::*;

verus! {

/// The value of an `i64` key as an array position, when it is one.
pub open spec fn key_slot(key: i64, len: nat) -> bool {
    0 <= key && key < len
}

/// `s` with position `key` set to `Some(data)`, grown with `None` where needed.
pub open spec fn array_insert(s: Seq<Option<usize>>, key: int, data: usize) -> Seq<Option<usize>> {
    if key < 0 {
        s
    } else {
        Seq::new(
            if key < s.len() { s.len() } else { (key + 1) as nat },
            |i: int| if i == key { Some(data) } else if i < s.len() { s[i] } else { None },
        )
    }
}

/// The entry at `key`, `None` outside the array.
pub open spec fn array_get(s: Seq<Option<usize>>, key: int) -> Option<usize> {
    if 0 <= key < s.len() { s[key] } else { None }
}

/// The entry of the smallest filled position `>= key`; a negative `key` starts the search at
/// position 0.
pub open spec fn array_upper_bound(s: Seq<Option<usize>>, key: int) -> Option<usize>
    decreases s.len() - key,
{
    if key >= s.len() {
        None
    } else if key < 0 {
        array_upper_bound(s, 0)
    } else if s[key] is Some {
        s[key]
    } else {
        array_upper_bound(s, key + 1)
    }
}

/// The entry of the largest filled position `<= key`; a `key` past the array starts the search
/// at its last position.
pub open spec fn array_lower_bound(s: Seq<Option<usize>>, key: int) -> Option<usize>
    decreases key + 1,
{
    if key < 0 {
        None
    } else if key >= s.len() {
        array_lower_bound(s, s.len() - 1)
    } else if s[key] is Some {
        s[key]
    } else {
        array_lower_bound(s, key - 1)
    }
}

/// `r` is the entry of the smallest key `>= key` that has one, or `None` when no such key has one.
pub open spec fn least_entry_from(s: Seq<Option<usize>>, key: int, r: Option<usize>) -> bool {
    match r {
        Some(d) => exists|k: int| key <= k && #[trigger] array_get(s, k) == Some(d) && forall|j: int| key <= j < k ==> #[trigger] array_get(s, j) is None,
        None => forall|k: int| key <= k ==> #[trigger] array_get(s, k) is None,
    }
}

/// `r` is the entry of the largest key `<= key` that has one, or `None` when no such key has one.
pub open spec fn greatest_entry_upto(s: Seq<Option<usize>>, key: int, r: Option<usize>) -> bool {
    match r {
        Some(d) => exists|k: int| k <= key && #[trigger] array_get(s, k) == Some(d) && forall|j: int| k < j <= key ==> #[trigger] array_get(s, j) is None,
        None => forall|k: int| k <= key ==> #[trigger] array_get(s, k) is None,
    }
}

/// The upper bound is the entry of the smallest key at or above `key` that has one.
pub proof fn lemma_array_upper_bound(s: Seq<Option<usize>>, key: int)
    ensures
        least_entry_from(s, key, array_upper_bound(s, key)),
    decreases s.len() - key,
{
    if key >= s.len() {
    } else if key < 0 {
        lemma_array_upper_bound(s, 0);
        match array_upper_bound(s, 0) {
            Some(d) => {
                let k = choose|k: int| 0 <= k && #[trigger] array_get(s, k) == Some(d) && forall|j: int| 0 <= j < k ==> #[trigger] array_get(s, j) is None;
                assert forall|j: int| key <= j < k implies #[trigger] array_get(s, j) is None by {
                    if j >= 0 {
                        assert(0 <= j < k);
                    }
                }
                assert(key <= k && array_get(s, k) == Some(d));
            },
            None => {
                assert forall|k: int| key <= k implies #[trigger] array_get(s, k) is None by {
                    if k >= 0 {
                        assert(0 <= k);
                    }
                }
            },
        }
    } else if s[key] is Some {
        assert(array_get(s, key) == s[key]);
    } else {
        lemma_array_upper_bound(s, key + 1);
        match array_upper_bound(s, key + 1) {
            Some(d) => {
                let k = choose|k: int| key + 1 <= k && #[trigger] array_get(s, k) == Some(d) && forall|j: int| key + 1 <= j < k ==> #[trigger] array_get(s, j) is None;
                assert forall|j: int| key <= j < k implies #[trigger] array_get(s, j) is None by {
                    if j > key {
                        assert(key + 1 <= j < k);
                    }
                }
                assert(key <= k && array_get(s, k) == Some(d));
            },
            None => {
                assert forall|k: int| key <= k implies #[trigger] array_get(s, k) is None by {
                    if k > key {
                        assert(key + 1 <= k);
                    }
                }
            },
        }
    }
}

/// The lower bound is the entry of the largest key at or below `key` that has one.
pub proof fn lemma_array_lower_bound(s: Seq<Option<usize>>, key: int)
    ensures
        greatest_entry_upto(s, key, array_lower_bound(s, key)),
    decreases key + 1,
{
    if key < 0 {
    } else if key >= s.len() {
        lemma_array_lower_bound(s, s.len() - 1);
        let m = s.len() - 1;
        match array_lower_bound(s, m) {
            Some(d) => {
                let k = choose|k: int| k <= m && #[trigger] array_get(s, k) == Some(d) && forall|j: int| k < j <= m ==> #[trigger] array_get(s, j) is None;
                assert forall|j: int| k < j <= key implies #[trigger] array_get(s, j) is None by {
                    if j <= m {
                        assert(k < j <= m);
                    }
                }
                assert(k <= key && array_get(s, k) == Some(d));
            },
            None => {
                assert forall|k: int| k <= key implies #[trigger] array_get(s, k) is None by {
                    if k <= m {
                        assert(k <= m);
                    }
                }
            },
        }
    } else if s[key] is Some {
        assert(array_get(s, key) == s[key]);
    } else {
        lemma_array_lower_bound(s, key - 1);
        match array_lower_bound(s, key - 1) {
            Some(d) => {
                let k = choose|k: int| k <= key - 1 && #[trigger] array_get(s, k) == Some(d) && forall|j: int| k < j <= key - 1 ==> #[trigger] array_get(s, j) is None;
                assert forall|j: int| k < j <= key implies #[trigger] array_get(s, j) is None by {
                    if j < key {
                        assert(k < j <= key - 1);
                    }
                }
                assert(k <= key && array_get(s, k) == Some(d));
            },
            None => {
                assert forall|k: int| k <= key implies #[trigger] array_get(s, k) is None by {
                    if k < key {
                        assert(k <= key - 1);
                    }
                }
            },
        }
    }
}

/// Maps `i64` keys to `usize` positions.
#[derive(Clone)]
pub struct CrackerIndex {
    pub index: Vec<Option<usize>>,
}

impl View for CrackerIndex {
    type V = Seq<Option<usize>>;

    open spec fn view(&self) -> Seq<Option<usize>> {
        self.index@
    }
}

impl CrackerIndex {
    pub fn new() -> (r: CrackerIndex)
        ensures
            r@ == Seq::<Option<usize>>::empty(),
    {
        CrackerIndex { index: Vec::new() }
    }

    /// Records `data` under `key`; negative keys are ignored.
    pub fn insert(&mut self, key: i64, data: usize)
        requires
            key < usize::MAX,
        ensures
            final(self)@ == array_insert(old(self)@, key as int, data),
    {
        if key < 0 {
            return;
        }
        let k = key as usize;
        while self.index.len() <= k
            invariant
                0 <= key,
                k == key,
                k < usize::MAX,
                self.index@.len() >= old(self).index@.len(),
                self.index@.len() <= if k < old(self).index@.len() { old(self).index@.len() } else { (k + 1) as nat },
                forall|i: int| 0 <= i < self.index@.len() ==> #[trigger] self.index@[i] == (if i < old(self).index@.len() { old(self).index@[i] } else { None }),
            decreases k + 1 - self.index.len(),
        {
            self.index.push(None);
        }
        self.index.set(k, Some(data));
        assert(self@ =~= array_insert(old(self)@, key as int, data));
    }

    /// Removes the entry of `key`; the other keys keep theirs.
    pub fn delete(&mut self, key: i64)
        ensures
            final(self)@ == if key_slot(key, old(self)@.len()) { old(self)@.update(key as int, None) } else { old(self)@ },
            array_get(final(self)@, key as int) is None,
            forall|k: int| k != key ==> #[trigger] array_get(final(self)@, k) == array_get(old(self)@, k),
    {
        if 0 <= key && (key as u64) < (self.index.len() as u64) {
            self.index.set(key as usize, None);
        }
    }

    pub fn get(&self, key: i64) -> (r: Option<usize>)
        ensures
            r == array_get(self@, key as int),
    {
        if key < 0 || (key as u64) >= (self.index.len() as u64) {
            None
        } else {
            self.index[key as usize]
        }
    }

    pub fn get_or(self, key: i64, default: usize) -> (r: usize)
        ensures
            r == match array_get(self@, key as int) {
                Some(d) => d,
                None => default,
            },
    {
        match self.get(key) {
            Some(d) => d,
            None => default,
        }
    }

    pub fn contains(&self, key: i64) -> (r: bool)
        ensures
            r == (array_get(self@, key as int) is Some),
    {
        self.get(key).is_some()
    }

    pub fn empty(&self) -> (r: bool)
        ensures
            r == (self@.len() == 0),
    {
        self.index.len() == 0
    }

    /// The entry of the smallest filled key `>= key`.
    pub fn upper_bound(&self, key: &i64) -> (r: Option<usize>)
        ensures
            r == array_upper_bound(self@, *key as int),
            least_entry_from(self@, *key as int, r),
    {
        proof {
            lemma_array_upper_bound(self@, *key as int);
        }
        if *key >= 0 && (*key as u64) >= (self.index.len() as u64) {
            return None;
        }
        if self.index.len() == 0 {
            return None;
        }
        let mut k: usize = if *key < 0 { 0 } else { *key as usize };
        proof {
            if *key < 0 {
                assert(array_upper_bound(self@, *key as int) == array_upper_bound(self@, 0));
            }
        }
        while self.index[k].is_none() && k < self.index.len() - 1
            invariant
                k < self.index@.len(),
                array_upper_bound(self@, k as int) == array_upper_bound(self@, *key as int),
            decreases self.index@.len() - k,
        {
            k += 1;
        }
        proof {
            if self.index@[k as int] is None {
                assert(k == self.index@.len() - 1);
                assert(array_upper_bound(self@, k + 1) == None::<usize>);
            }
        }
        self.index[k]
    }

    /// The entry of the largest filled key `<= key`.
    pub fn lower_bound(&self, key: &i64) -> (r: Option<usize>)
        ensures
            r == array_lower_bound(self@, *key as int),
            greatest_entry_upto(self@, *key as int, r),
    {
        proof {
            lemma_array_lower_bound(self@, *key as int);
        }
        if *key < 0 || self.index.len() == 0 {
            return None;
        }
        let mut k: usize = if (*key as u64) >= (self.index.len() as u64) { self.index.len() - 1 } else { *key as usize };
        proof {
            if *key >= self.index@.len() {
                assert(array_lower_bound(self@, *key as int) == array_lower_bound(self@, self.index@.len() - 1));
            }
        }
        while self.index[k].is_none() && k > 0
            invariant
                k < self.index@.len(),
                array_lower_bound(self@, k as int) == array_lower_bound(self@, *key as int),
            decreases k,
        {
            k -= 1;
        }
        proof {
            if self.index@[k as int] is None {
                assert(k == 0);
                assert(array_lower_bound(self@, -1) == None::<usize>);
            }
        }
        self.index[k]
    }
}

} // verus!
