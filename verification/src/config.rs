use vstd::prelude::*;

verus! {

/// The named configuration field is not one the module declared.
#[derive(Clone, Copy, PartialEq, Eq, Structural, Debug)]
pub struct UnknownFieldError;

/// No two entries share a field name.
pub open spec fn unique_keys(c: Seq<(Seq<char>, Seq<char>)>) -> bool {
    forall|i: int, j: int|
        0 <= i < j < c.len() ==> (#[trigger] c[i]).0 != (#[trigger] c[j]).0
}

/// Some entry carries the given field name.
pub open spec fn has_key(c: Seq<(Seq<char>, Seq<char>)>, k: Seq<char>) -> bool {
    exists|i: int| 0 <= i < c.len() && (#[trigger] c[i]).0 == k
}

/// The position of the entry that carries the given field name.
pub open spec fn key_index(c: Seq<(Seq<char>, Seq<char>)>, k: Seq<char>) -> int {
    choose|i: int| 0 <= i < c.len() && (#[trigger] c[i]).0 == k
}

/// An ordered mapping from configuration-field name to its current
/// string value. The order is the one the module declared its fields
/// in; overwriting a present field is the only mutation offered.
#[derive(Clone, Debug, PartialEq, Eq)]
pub struct PluginConfig {
    pub(crate) entries: Vec<(String, String)>,
}

impl View for PluginConfig {
    type V = Seq<(Seq<char>, Seq<char>)>;

    open(crate) spec fn view(&self) -> Seq<(Seq<char>, Seq<char>)> {
        self.entries@.map_values(|e: (String, String)| (e.0@, e.1@))
    }
}

impl PluginConfig {
    /// Field names are pairwise distinct.
    pub open spec fn wf(&self) -> bool {
        unique_keys(self@)
    }

    /// The empty mapping.
    pub fn new() -> (r: PluginConfig)
        ensures
            r@ =~= Seq::<(Seq<char>, Seq<char>)>::empty(),
            r.wf(),
    {
        let r = PluginConfig { entries: Vec::new() };
        proof {
            assert(r@ =~= Seq::<(Seq<char>, Seq<char>)>::empty());
        }
        r
    }

    pub fn len(&self) -> (r: usize)
        ensures
            r == self@.len(),
    {
        self.entries.len()
    }

    /// The value the named field holds, if the field is declared.
    pub fn get_field(&self, name: &str) -> (r: Option<&String>)
        requires
            self.wf(),
        ensures
            r matches Some(v) ==> has_key(self@, name@) && v@ == self@[key_index(
                self@,
                name@,
            )].1,
            r is None <==> !has_key(self@, name@),
    {
        let owned = name.to_owned();
        let n = self.entries.len();
        let mut i: usize = 0;
        while i < n
            invariant
                i <= n == self.entries@.len(),
                self.wf(),
                owned@ == name@,
                forall|j: int| 0 <= j < i ==> (#[trigger] self@[j]).0 != name@,
            decreases n - i,
        {
            if self.entries[i].0 == owned {
                proof {
                    assert(self@[i as int].0 == name@);
                    assert(has_key(self@, name@));
                    let k = key_index(self@, name@);
                    assert(0 <= k < self@.len() && self@[k].0 == name@);
                    assert(k == i as int);
                }
                return Some(&self.entries[i].1);
            }
            i = i + 1;
        }
        proof {
            assert(!has_key(self@, name@));
        }
        None
    }

    /// Overwrite the named field, which must be one the module declared:
    /// a name that is not declared is reported, and the mapping is left
    /// exactly as it was. No field is ever added or removed.
    pub fn set_field(&mut self, name: &str, value: &str) -> (r: Result<(), UnknownFieldError>)
        requires
            old(self).wf(),
        ensures
            final(self).wf(),
            r is Ok <==> has_key(old(self)@, name@),
            r is Ok ==> final(self)@ == old(self)@.update(
                key_index(old(self)@, name@),
                (name@, value@),
            ),
            r is Err ==> final(self)@ == old(self)@ && r == Err::<(), UnknownFieldError>(
                UnknownFieldError,
            ),
    {
        let owned = name.to_owned();
        let n = self.entries.len();
        let mut i: usize = 0;
        while i < n
            invariant
                i <= n == self.entries@.len(),
                self.wf(),
                self@ == old(self)@,
                self.entries@ == old(self).entries@,
                owned@ == name@,
                forall|j: int| 0 <= j < i ==> (#[trigger] self@[j]).0 != name@,
            decreases n - i,
        {
            if self.entries[i].0 == owned {
                proof {
                    assert(self@[i as int].0 == name@);
                    assert(has_key(self@, name@));
                    let k = key_index(self@, name@);
                    assert(0 <= k < self@.len() && self@[k].0 == name@);
                    assert(k == i as int);
                }
                let prior = self.entries.remove(i);
                self.entries.insert(i, (prior.0, value.to_owned()));
                proof {
                    assert(self.entries@[i as int].0@ == old(self)@[i as int].0);
                    assert(self@ =~= old(self)@.update(i as int, (name@, value@)));
                    assert forall|p: int, q: int| 0 <= p < q < self@.len() implies (
                    #[trigger] self@[p]).0 != (#[trigger] self@[q]).0 by {
                        assert(old(self)@[p].0 != old(self)@[q].0);
                        if p != i && q != i {
                            assert(self@[p] == old(self)@[p]);
                            assert(self@[q] == old(self)@[q]);
                        }
                    }
                }
                return Ok(());
            }
            i = i + 1;
        }
        proof {
            assert(!has_key(self@, name@));
        }
        Err(UnknownFieldError)
    }

    /// An identical copy of the mapping: the frozen snapshot a running
    /// module instance carries.
    pub fn duplicate(&self) -> (r: PluginConfig)
        ensures
            r@ == self@,
    {
        let mut entries: Vec<(String, String)> = Vec::new();
        let n = self.entries.len();
        let mut i: usize = 0;
        while i < n
            invariant
                i <= n == self.entries@.len(),
                entries@.len() == i,
                forall|j: int| 0 <= j < i ==> ((#[trigger] entries@[j]).0@, entries@[j].1@)
                    == self@[j],
            decreases n - i,
        {
            let key = self.entries[i].0.as_str().to_owned();
            let value = self.entries[i].1.as_str().to_owned();
            proof {
                assert((key@, value@) == self@[i as int]);
            }
            entries.push((key, value));
            i = i + 1;
        }
        let r = PluginConfig { entries };
        proof {
            assert(r@ =~= self@);
        }
        r
    }

    /// The declared field names, in their declared order.
    pub fn field_names(&self) -> (r: Vec<String>)
        ensures
            r@.len() == self@.len(),
            forall|i: int| 0 <= i < r@.len() ==> (#[trigger] r@[i])@ == self@[i].0,
    {
        let mut names: Vec<String> = Vec::new();
        let n = self.entries.len();
        let mut i: usize = 0;
        while i < n
            invariant
                i <= n == self.entries@.len(),
                names@.len() == i,
                forall|j: int| 0 <= j < i ==> (#[trigger] names@[j])@ == self@[j].0,
            decreases n - i,
        {
            let name = self.entries[i].0.as_str().to_owned();
            proof {
                assert(name@ == self@[i as int].0);
            }
            names.push(name);
            i = i + 1;
        }
        names
    }
}

} // verus!
