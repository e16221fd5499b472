use vstd::prelude::*;
use crate::assoc::{
    assoc_map, covered, keys_unique, lemma_covered_equal, lemma_assoc_contains, lemma_assoc_index, lemma_assoc_push,
    lemma_assoc_remove, lemma_assoc_update,
};

verus! {

/// Balance of `k`, zero when absent.
pub open spec fn balance(m: Map<[u8; 32], u64>, k: [u8; 32]) -> nat {
    if m.contains_key(k) {
        m[k] as nat
    } else {
        0
    }
}

/// `m` with the balance of `k` set to `v`; a zero balance removes the entry.
pub open spec fn with_balance(m: Map<[u8; 32], u64>, k: [u8; 32], v: nat) -> Map<[u8; 32], u64> {
    if v == 0 {
        m.remove(k)
    } else {
        m.insert(k, v as u64)
    }
}

/// No account holds a zero balance.
pub open spec fn no_zero_balance(m: Map<[u8; 32], u64>) -> bool {
    forall|k: [u8; 32]| #[trigger] m.contains_key(k) ==> m[k] > 0
}

pub(crate) fn key_eq(a: &[u8; 32], b: &[u8; 32]) -> (r: bool)
    ensures
        r == (*a == *b),
{
    let mut i: usize = 0;
    while i < 32
        invariant
            i <= 32,
            forall|j: int| 0 <= j < i ==> a@[j] == b@[j],
        decreases 32 - i,
    {
        if a[i] != b[i] {
            return false;
        }
        i = i + 1;
    }
    assert(*a =~= *b);
    true
}

/// Sum of the values of a list of entries.
pub open spec fn values_sum(s: Seq<([u8; 32], u64)>) -> int
    decreases s.len(),
{
    if s.len() == 0 {
        0
    } else {
        values_sum(s.drop_last()) + s.last().1 as int
    }
}

proof fn lemma_sum_update(s: Seq<([u8; 32], u64)>, i: int, v: u64)
    requires
        0 <= i < s.len(),
    ensures
        values_sum(s.update(i, (s[i].0, v))) == values_sum(s) - s[i].1 + v,
    decreases s.len(),
{
    let t = s.update(i, (s[i].0, v));
    if i == s.len() - 1 {
        assert(t.drop_last() == s.drop_last());
    } else {
        lemma_sum_update(s.drop_last(), i, v);
        assert(t.drop_last() == s.drop_last().update(i, (s[i].0, v)));
    }
}

proof fn lemma_sum_remove(s: Seq<([u8; 32], u64)>, i: int)
    requires
        0 <= i < s.len(),
    ensures
        values_sum(s.remove(i)) == values_sum(s) - s[i].1,
    decreases s.len(),
{
    let t = s.remove(i);
    if i == s.len() - 1 {
        assert(t == s.drop_last());
    } else {
        lemma_sum_remove(s.drop_last(), i);
        assert(t.drop_last() == s.drop_last().remove(i));
        assert(t.last() == s.last());
    }
}

/// Balances by x-only public key, kept as a list of entries with distinct keys and
/// positive balances. A list rather than a hash map so that every lookup and update
/// is proved against the map it describes; two sets compare equal when they hold the
/// same balances, whatever the order of their entries.
#[derive(Debug, Clone)]
pub struct Accounts {
    entries: Vec<([u8; 32], u64)>,
}

impl View for Accounts {
    type V = Map<[u8; 32], u64>;

    closed spec fn view(&self) -> Map<[u8; 32], u64> {
        assoc_map(self.entries@)
    }
}

impl Accounts {
    /// Entries have distinct keys and no zero balance.
    pub closed spec fn wf(&self) -> bool {
        &&& keys_unique(self.entries@)
        &&& forall|i: int| 0 <= i < self.entries@.len() ==> self.entries@[i].1 > 0
    }

    /// The sum of all balances.
    pub closed spec fn total(&self) -> int {
        values_sum(self.entries@)
    }

    /// A well-formed account set never maps a key to zero.
    pub proof fn lemma_no_zero_balance(&self)
        requires
            self.wf(),
        ensures
            no_zero_balance(self@),
    {
        assert forall|k: [u8; 32]| #[trigger] self@.contains_key(k) implies self@[k] > 0 by {
            lemma_assoc_contains(self.entries@, k);
            let i = choose|i: int| 0 <= i < self.entries@.len() && self.entries@[i].0 == k;
            lemma_assoc_index(self.entries@, i);
        }
    }

    fn check_wf(&self) -> (r: bool)
        ensures
            r == self.wf(),
    {
        let n = self.entries.len();
        let mut i: usize = 0;
        while i < n
            invariant
                n == self.entries@.len(),
                i <= n,
                forall|a: int, b: int| 0 <= a < b < i ==> self.entries@[a].0 != self.entries@[b].0,
                forall|a: int| 0 <= a < i ==> self.entries@[a].1 > 0,
            decreases n - i,
        {
            if self.entries[i].1 == 0 {
                return false;
            }
            let mut j: usize = 0;
            while j < i
                invariant
                    n == self.entries@.len(),
                    j <= i < n,
                    forall|a: int| 0 <= a < j ==> self.entries@[a].0 != self.entries@[i as int].0,
                decreases i - j,
            {
                if key_eq(&self.entries[j].0, &self.entries[i].0) {
                    return false;
                }
                j = j + 1;
            }
            i = i + 1;
        }
        true
    }

    fn covered_by(&self, o: &Accounts) -> (r: bool)
        requires
            o.wf(),
        ensures
            r == covered(self.entries@, o@),
    {
        let mut i: usize = 0;
        while i < self.entries.len()
            invariant
                o.wf(),
                i <= self.entries@.len(),
                forall|a: int| 0 <= a < i ==> o@.contains_key(#[trigger] self.entries@[a].0)
                    && o@[self.entries@[a].0] == self.entries@[a].1,
            decreases self.entries@.len() - i,
        {
            match o.get(&self.entries[i].0) {
                Some(v) => {
                    if v != self.entries[i].1 {
                        return false;
                    }
                },
                None => {
                    return false;
                },
            }
            i = i + 1;
        }
        true
    }

    /// Whether both sets are well formed and hold the same balances, whatever the
    /// order their entries were made in.
    pub fn same_as(&self, o: &Accounts) -> (r: bool)
        ensures
            r == (self.wf() && o.wf() && self@ == o@),
    {
        if !self.check_wf() || !o.check_wf() {
            return false;
        }
        proof {
            lemma_covered_equal(self.entries@, o.entries@);
        }
        self.covered_by(o) && o.covered_by(self)
    }

    /// A copy holding the same entries.
    pub fn snapshot(&self) -> (r: Accounts)
        ensures
            r@ == self@,
            r.wf() == self.wf(),
    {
        let mut entries: Vec<([u8; 32], u64)> = Vec::new();
        let mut i: usize = 0;
        while i < self.entries.len()
            invariant
                i <= self.entries@.len(),
                entries@ == self.entries@.subrange(0, i as int),
            decreases self.entries@.len() - i,
        {
            entries.push(self.entries[i]);
            assert(entries@ =~= self.entries@.subrange(0, i + 1));
            i = i + 1;
        }
        assert(entries@ =~= self.entries@);
        Accounts { entries }
    }

    pub fn new() -> (r: Accounts)
        ensures
            r.wf(),
            r@ == Map::<[u8; 32], u64>::empty(),
    {
        Accounts { entries: Vec::new() }
    }

    fn find(&self, k: &[u8; 32]) -> (r: Option<usize>)
        requires
            self.wf(),
        ensures
            match r {
                Some(i) => i < self.entries@.len() && self.entries@[i as int].0 == *k,
                None => !self@.contains_key(*k),
            },
    {
        let mut i: usize = 0;
        while i < self.entries.len()
            invariant
                i <= self.entries@.len(),
                forall|j: int| 0 <= j < i ==> self.entries@[j].0 != *k,
            decreases self.entries@.len() - i,
        {
            if key_eq(&self.entries[i].0, k) {
                return Some(i);
            }
            i = i + 1;
        }
        proof {
            lemma_assoc_contains(self.entries@, *k);
        }
        None
    }

    pub fn get(&self, k: &[u8; 32]) -> (r: Option<u64>)
        requires
            self.wf(),
        ensures
            r == (if self@.contains_key(*k) {
                Some(self@[*k])
            } else {
                None::<u64>
            }),
    {
        match self.find(k) {
            Some(i) => {
                proof {
                    lemma_assoc_index(self.entries@, i as int);
                }
                Some(self.entries[i].1)
            },
            None => None,
        }
    }

    /// Sets the balance of `k` to `v`; a zero balance removes the entry.
    pub fn insert(&mut self, k: [u8; 32], v: u64)
        requires
            old(self).wf(),
        ensures
            final(self).wf(),
            final(self)@ == with_balance(old(self)@, k, v as nat),
            final(self).total() == old(self).total() - balance(old(self)@, k) + v,
    {
        match self.find(&k) {
            Some(i) => {
                proof {
                    lemma_assoc_update(self.entries@, i as int, v);
                    lemma_assoc_remove(self.entries@, i as int);
                    lemma_assoc_index(self.entries@, i as int);
                    lemma_sum_update(self.entries@, i as int, v);
                    lemma_sum_remove(self.entries@, i as int);
                }
                if v == 0 {
                    self.entries.remove(i);
                } else {
                    self.entries.set(i, (k, v));
                }
            },
            None => {
                if v != 0 {
                    proof {
                        lemma_assoc_push(self.entries@, k, v);
                    }
                    let ghost before = self.entries@;
                    self.entries.push((k, v));
                    assert(self.entries@.drop_last() == before);
                } else {
                    assert(self@ =~= self@.remove(k));
                }
            },
        }
    }

    /// Adds `amount` to the balance of `k`, creating the entry if absent.
    pub fn credit(&mut self, k: [u8; 32], amount: u64)
        requires
            old(self).wf(),
            balance(old(self)@, k) + amount <= u64::MAX,
        ensures
            final(self).wf(),
            final(self)@ == with_balance(old(self)@, k, balance(old(self)@, k) + amount as nat),
            final(self).total() == old(self).total() + amount,
    {
        let cur = match self.get(&k) {
            Some(b) => b,
            None => 0,
        };
        self.insert(k, cur + amount);
    }

    /// Takes `amount` from the balance of `k`, removing the entry at zero.
    pub fn debit(&mut self, k: [u8; 32], amount: u64)
        requires
            old(self).wf(),
            balance(old(self)@, k) >= amount,
        ensures
            final(self).wf(),
            final(self)@ == with_balance(old(self)@, k, (balance(old(self)@, k) - amount) as nat),
            final(self).total() == old(self).total() - amount,
    {
        let cur = match self.get(&k) {
            Some(b) => b,
            None => 0,
        };
        self.insert(k, cur - amount);
    }
}

pub open spec fn name_entries(s: Seq<(String, [u8; 32])>) -> Seq<(Seq<char>, [u8; 32])> {
    s.map_values(|e: (String, [u8; 32])| (e.0@, e.1))
}

/// Owners of registered names, kept as a list of entries with distinct names; two
/// tables compare equal when they give the same owners, whatever the order.
#[derive(Debug, Clone)]
pub struct Names {
    entries: Vec<(String, [u8; 32])>,
}

impl View for Names {
    type V = Map<Seq<char>, [u8; 32]>;

    closed spec fn view(&self) -> Map<Seq<char>, [u8; 32]> {
        assoc_map(name_entries(self.entries@))
    }
}

impl Names {
    pub closed spec fn wf(&self) -> bool {
        keys_unique(name_entries(self.entries@))
    }

    fn check_wf(&self) -> (r: bool)
        ensures
            r == self.wf(),
    {
        let ghost e = name_entries(self.entries@);
        let n = self.entries.len();
        let mut i: usize = 0;
        while i < n
            invariant
                n == self.entries@.len(),
                e == name_entries(self.entries@),
                i <= n,
                forall|a: int, b: int| 0 <= a < b < i ==> e[a].0 != e[b].0,
            decreases n - i,
        {
            let mut j: usize = 0;
            while j < i
                invariant
                    n == self.entries@.len(),
                    e == name_entries(self.entries@),
                    j <= i < n,
                    forall|a: int| 0 <= a < j ==> e[a].0 != e[i as int].0,
                decreases i - j,
            {
                if self.entries[j].0 == self.entries[i].0 {
                    assert(e[j as int].0 == e[i as int].0);
                    return false;
                }
                j = j + 1;
            }
            i = i + 1;
        }
        true
    }

    fn covered_by(&self, o: &Names) -> (r: bool)
        requires
            o.wf(),
        ensures
            r == covered(name_entries(self.entries@), o@),
    {
        let ghost e = name_entries(self.entries@);
        let mut i: usize = 0;
        while i < self.entries.len()
            invariant
                o.wf(),
                e == name_entries(self.entries@),
                i <= self.entries@.len(),
                forall|a: int| 0 <= a < i ==> o@.contains_key(#[trigger] e[a].0) && o@[e[a].0] == e[a].1,
            decreases self.entries@.len() - i,
        {
            assert(e[i as int] == (self.entries@[i as int].0@, self.entries@[i as int].1));
            match o.get(&self.entries[i].0) {
                Some(v) => {
                    if !key_eq(&v, &self.entries[i].1) {
                        assert(!(o@[e[i as int].0] == e[i as int].1));
                        return false;
                    }
                },
                None => {
                    assert(!o@.contains_key(e[i as int].0));
                    return false;
                },
            }
            i = i + 1;
        }
        true
    }

    /// Whether both tables are well formed and give the same owners, whatever the
    /// order their entries were made in.
    pub fn same_as(&self, o: &Names) -> (r: bool)
        ensures
            r == (self.wf() && o.wf() && self@ == o@),
    {
        if !self.check_wf() || !o.check_wf() {
            return false;
        }
        proof {
            lemma_covered_equal(name_entries(self.entries@), name_entries(o.entries@));
        }
        self.covered_by(o) && o.covered_by(self)
    }

    pub fn new() -> (r: Names)
        ensures
            r.wf(),
            r@ == Map::<Seq<char>, [u8; 32]>::empty(),
    {
        let r = Names { entries: Vec::new() };
        assert(name_entries(r.entries@) =~= Seq::<(Seq<char>, [u8; 32])>::empty());
        r
    }

    fn find(&self, name: &String) -> (r: Option<usize>)
        requires
            self.wf(),
        ensures
            match r {
                Some(i) => i < self.entries@.len() && self.entries@[i as int].0@ == name@,
                None => !self@.contains_key(name@),
            },
    {
        let mut i: usize = 0;
        while i < self.entries.len()
            invariant
                i <= self.entries@.len(),
                forall|j: int| 0 <= j < i ==> self.entries@[j].0@ != name@,
            decreases self.entries@.len() - i,
        {
            if self.entries[i].0 == *name {
                return Some(i);
            }
            i = i + 1;
        }
        proof {
            lemma_assoc_contains(name_entries(self.entries@), name@);
        }
        None
    }

    pub fn get(&self, name: &String) -> (r: Option<[u8; 32]>)
        requires
            self.wf(),
        ensures
            r == (if self@.contains_key(name@) {
                Some(self@[name@])
            } else {
                None::<[u8; 32]>
            }),
    {
        match self.find(name) {
            Some(i) => {
                proof {
                    lemma_assoc_index(name_entries(self.entries@), i as int);
                }
                Some(self.entries[i].1)
            },
            None => None,
        }
    }

    pub fn contains_key(&self, name: &String) -> (r: bool)
        requires
            self.wf(),
        ensures
            r == self@.contains_key(name@),
    {
        self.get(name).is_some()
    }

    pub fn insert(&mut self, name: String, k: [u8; 32])
        requires
            old(self).wf(),
        ensures
            final(self).wf(),
            final(self)@ == old(self)@.insert(name@, k),
    {
        let ghost e = name_entries(self.entries@);
        match self.find(&name) {
            Some(i) => {
                proof {
                    lemma_assoc_update(e, i as int, k);
                }
                self.entries.set(i, (name, k));
                assert(name_entries(self.entries@) =~= e.update(i as int, (e[i as int].0, k)));
            },
            None => {
                proof {
                    lemma_assoc_push(e, name@, k);
                }
                self.entries.push((name, k));
                assert(name_entries(self.entries@) =~= e.push((name@, k)));
            },
        }
    }

    pub fn remove(&mut self, name: &String)
        requires
            old(self).wf(),
        ensures
            final(self).wf(),
            final(self)@ == old(self)@.remove(name@),
    {
        let ghost e = name_entries(self.entries@);
        match self.find(name) {
            Some(i) => {
                proof {
                    lemma_assoc_remove(e, i as int);
                }
                self.entries.remove(i);
                assert(name_entries(self.entries@) =~= e.remove(i as int));
            },
            None => {
                assert(self@ =~= self@.remove(name@));
            },
        }
    }
}

impl PartialEq for Accounts {
    fn eq(&self, o: &Accounts) -> (r: bool) {
        self.same_as(o)
    }
}

impl vstd::std_specs::cmp::PartialEqSpecImpl for Accounts {
    open spec fn obeys_eq_spec() -> bool {
        true
    }

    open spec fn eq_spec(&self, o: &Accounts) -> bool {
        self.wf() && o.wf() && self@ == o@
    }
}

impl Eq for Accounts {
}

impl PartialEq for Names {
    fn eq(&self, o: &Names) -> (r: bool) {
        self.same_as(o)
    }
}

impl vstd::std_specs::cmp::PartialEqSpecImpl for Names {
    open spec fn obeys_eq_spec() -> bool {
        true
    }

    open spec fn eq_spec(&self, o: &Names) -> bool {
        self.wf() && o.wf() && self@ == o@
    }
}

impl Eq for Names {
}

} // verus!
