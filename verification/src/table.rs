use vstd::prelude::*;
use crate::text::bytes_eq;

verus! {

/// The waypoint table: name to line index, later entries winning.
pub struct WpTable {
    entries: Vec<(Vec<u8>, usize)>,
}

pub open spec fn wp_map_of(es: Seq<(Vec<u8>, usize)>) -> Map<Seq<u8>, int>
    decreases es.len(),
{
    if es.len() == 0 {
        Map::empty()
    } else {
        wp_map_of(es.drop_last()).insert(es.last().0@, es.last().1 as int)
    }
}

impl View for WpTable {
    type V = Map<Seq<u8>, int>;

    closed spec fn view(&self) -> Map<Seq<u8>, int> {
        wp_map_of(self.entries@)
    }
}

proof fn lemma_wp_map_skip(es: Seq<(Vec<u8>, usize)>, j: int, key: Seq<u8>)
    requires
        0 <= j <= es.len(),
        forall|m: int| j <= m < es.len() ==> (#[trigger] es[m]).0@ != key,
    ensures
        wp_map_of(es).contains_key(key) == wp_map_of(es.take(j)).contains_key(key),
        wp_map_of(es).contains_key(key) ==> wp_map_of(es)[key] == wp_map_of(es.take(j))[key],
    decreases es.len() - j,
{
    if j == es.len() {
        assert(es.take(j) =~= es);
    } else {
        let t = es.drop_last();
        assert(es.last().0@ != key);
        lemma_wp_map_skip(t, j, key);
        assert(t.take(j) =~= es.take(j));
    }
}

impl WpTable {
    pub fn new() -> (r: WpTable)
        ensures
            r@ == Map::<Seq<u8>, int>::empty(),
    {
        WpTable { entries: Vec::new() }
    }

    pub fn insert(&mut self, key: Vec<u8>, val: usize)
        ensures
            final(self)@ == old(self)@.insert(key@, val as int),
    {
        let ghost prev = self.entries@;
        self.entries.push((key, val));
        proof {
            assert(self.entries@.drop_last() =~= prev);
        }
    }

    pub fn get(&self, key: &Vec<u8>) -> (r: Option<usize>)
        ensures
            match r {
                Some(v) => self@.contains_key(key@) && self@[key@] == v as int,
                None => !self@.contains_key(key@),
            },
    {
        let mut i: usize = self.entries.len();
        while i > 0
            invariant
                0 <= i <= self.entries@.len(),
                forall|m: int| i <= m < self.entries@.len() ==> (#[trigger] self.entries@[m]).0@
                    != key@,
            decreases i,
        {
            i -= 1;
            if bytes_eq(&self.entries[i].0, key) {
                let v = self.entries[i].1;
                proof {
                    lemma_wp_map_skip(self.entries@, i + 1, key@);
                    assert(self.entries@.take(i + 1).drop_last() =~= self.entries@.take(i as int));
                    assert(self.entries@.take(i + 1).last() == self.entries@[i as int]);
                }
                return Some(v);
            }
        }
        proof {
            lemma_wp_map_skip(self.entries@, 0, key@);
            assert(self.entries@.take(0) =~= Seq::<(Vec<u8>, usize)>::empty());
        }
        None
    }
}

/// The variable store: name to value, later entries winning.
pub struct VarTable {
    entries: Vec<(Vec<u8>, Vec<u8>)>,
}

pub open spec fn var_map_of(es: Seq<(Vec<u8>, Vec<u8>)>) -> Map<Seq<u8>, Seq<u8>>
    decreases es.len(),
{
    if es.len() == 0 {
        Map::empty()
    } else {
        var_map_of(es.drop_last()).insert(es.last().0@, es.last().1@)
    }
}

impl View for VarTable {
    type V = Map<Seq<u8>, Seq<u8>>;

    closed spec fn view(&self) -> Map<Seq<u8>, Seq<u8>> {
        var_map_of(self.entries@)
    }
}

proof fn lemma_var_map_skip(es: Seq<(Vec<u8>, Vec<u8>)>, j: int, key: Seq<u8>)
    requires
        0 <= j <= es.len(),
        forall|m: int| j <= m < es.len() ==> (#[trigger] es[m]).0@ != key,
    ensures
        var_map_of(es).contains_key(key) == var_map_of(es.take(j)).contains_key(key),
        var_map_of(es).contains_key(key) ==> var_map_of(es)[key] == var_map_of(es.take(j))[key],
    decreases es.len() - j,
{
    if j == es.len() {
        assert(es.take(j) =~= es);
    } else {
        let t = es.drop_last();
        assert(es.last().0@ != key);
        lemma_var_map_skip(t, j, key);
        assert(t.take(j) =~= es.take(j));
    }
}

impl VarTable {
    pub fn new() -> (r: VarTable)
        ensures
            r@ == Map::<Seq<u8>, Seq<u8>>::empty(),
    {
        VarTable { entries: Vec::new() }
    }

    pub fn insert(&mut self, key: Vec<u8>, val: Vec<u8>)
        ensures
            final(self)@ == old(self)@.insert(key@, val@),
    {
        let ghost prev = self.entries@;
        self.entries.push((key, val));
        proof {
            assert(self.entries@.drop_last() =~= prev);
        }
    }

    pub fn get(&self, key: &Vec<u8>) -> (r: Option<&Vec<u8>>)
        ensures
            match r {
                Some(v) => self@.contains_key(key@) && self@[key@] == v@,
                None => !self@.contains_key(key@),
            },
    {
        let mut i: usize = self.entries.len();
        while i > 0
            invariant
                0 <= i <= self.entries@.len(),
                forall|m: int| i <= m < self.entries@.len() ==> (#[trigger] self.entries@[m]).0@
                    != key@,
            decreases i,
        {
            i -= 1;
            if bytes_eq(&self.entries[i].0, key) {
                proof {
                    lemma_var_map_skip(self.entries@, i + 1, key@);
                    assert(self.entries@.take(i + 1).drop_last() =~= self.entries@.take(i as int));
                    assert(self.entries@.take(i + 1).last() == self.entries@[i as int]);
                }
                return Some(&self.entries[i].1);
            }
        }
        proof {
            lemma_var_map_skip(self.entries@, 0, key@);
            assert(self.entries@.take(0) =~= Seq::<(Vec<u8>, Vec<u8>)>::empty());
        }
        None
    }
}

} // verus!
