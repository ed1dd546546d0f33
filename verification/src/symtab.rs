//! The symbol table: a mapping from names to bindings, viewed as a
//! `Map<Seq<char>, SymbolTableBinding>`. Names are unique within one
//! table; a later bind of the same name replaces the earlier one.

use vstd::prelude::*;

use crate::chars::str_eq;
use crate::metaparser::{Directive, HandlerKind};

verus! {

/// What a name can be bound to: a directive, a plain data payload, or a
/// nested table giving hierarchical namespacing.
pub enum SymbolTableBinding {
    /// An invocable directive.
    Directive(Directive),
    /// A captured string payload.
    Data(String),
    /// A nested symbol table.
    Module(SymbolTable),
}

/// A table of named bindings.
pub struct SymbolTable {
    bindings: Vec<(String, SymbolTableBinding)>,
}

/// The mapping an association list denotes; a later entry for a name
/// supersedes an earlier one.
pub open spec fn assoc_map(s: Seq<(String, SymbolTableBinding)>) -> Map<
    Seq<char>,
    SymbolTableBinding,
>
    decreases s.len(),
{
    if s.len() == 0 {
        Map::empty()
    } else {
        assoc_map(s.drop_last()).insert(s.last().0@, s.last().1)
    }
}

/// Whether the entries of `s` carry pairwise distinct names.
pub open spec fn keys_unique(s: Seq<(String, SymbolTableBinding)>) -> bool {
    forall|i: int, j: int| 0 <= i < j < s.len() ==> (#[trigger] s[i]).0@ != (#[trigger] s[j]).0@
}

/// An entry's name is in the denoted map, bound to that entry's value.
proof fn lemma_assoc_found(s: Seq<(String, SymbolTableBinding)>, i: int, k: Seq<char>)
    requires
        keys_unique(s),
        0 <= i < s.len(),
        s[i].0@ == k,
    ensures
        assoc_map(s).contains_key(k),
        assoc_map(s)[k] == s[i].1,
    decreases s.len(),
{
    if i < s.len() - 1 {
        assert(forall|x: int, y: int|
            0 <= x < y < s.drop_last().len() ==> (#[trigger] s.drop_last()[x]).0@ != (
            #[trigger] s.drop_last()[y]).0@);
        lemma_assoc_found(s.drop_last(), i, k);
        assert(s.last().0@ != k);
    }
}

/// A name carried by no entry is not in the denoted map.
proof fn lemma_assoc_absent(s: Seq<(String, SymbolTableBinding)>, k: Seq<char>)
    requires
        forall|i: int| 0 <= i < s.len() ==> (#[trigger] s[i]).0@ != k,
    ensures
        !assoc_map(s).contains_key(k),
    decreases s.len(),
{
    if s.len() > 0 {
        lemma_assoc_absent(s.drop_last(), k);
    }
}

/// Removing the entry that carries name `k` removes `k` from the denoted
/// map and keeps the remaining names distinct.
proof fn lemma_assoc_remove(s: Seq<(String, SymbolTableBinding)>, i: int, k: Seq<char>)
    requires
        keys_unique(s),
        0 <= i < s.len(),
        s[i].0@ == k,
    ensures
        keys_unique(s.remove(i)),
        assoc_map(s.remove(i)) == assoc_map(s).remove(k),
    decreases s.len(),
{
    s.remove_ensures(i);
    assert(keys_unique(s.remove(i)));
    if i == s.len() - 1 {
        assert(s.remove(i) =~= s.drop_last());
        assert(forall|j: int| 0 <= j < s.drop_last().len() ==> (#[trigger] s.drop_last()[j]).0@
            != k);
        lemma_assoc_absent(s.drop_last(), k);
        assert(assoc_map(s.drop_last()) =~= assoc_map(s.drop_last()).remove(k));
        assert(assoc_map(s.remove(i)) =~= assoc_map(s).remove(k));
    } else {
        let d = s.drop_last();
        assert(forall|x: int, y: int|
            0 <= x < y < d.len() ==> (#[trigger] d[x]).0@ != (#[trigger] d[y]).0@);
        lemma_assoc_remove(d, i, k);
        assert(s.remove(i).drop_last() =~= d.remove(i));
        assert(s.remove(i).last() == s.last());
        assert(s.last().0@ != k);
        assert(assoc_map(s.remove(i)) == assoc_map(d.remove(i)).insert(s.last().0@, s.last().1));
        assert(assoc_map(d).remove(k).insert(s.last().0@, s.last().1) =~= assoc_map(d).insert(
            s.last().0@,
            s.last().1,
        ).remove(k));
        assert(assoc_map(s.remove(i)) =~= assoc_map(s).remove(k));
    }
}

impl View for SymbolTable {
    type V = Map<Seq<char>, SymbolTableBinding>;

    closed spec fn view(&self) -> Map<Seq<char>, SymbolTableBinding> {
        assoc_map(self.bindings@)
    }
}

impl SymbolTable {
    /// The table is well formed: its entries carry pairwise distinct
    /// names.
    pub closed spec fn wf(&self) -> bool {
        keys_unique(self.bindings@)
    }

    /// An empty table.
    pub fn new() -> (r: Self)
        ensures
            r.wf(),
            r@ == Map::<Seq<char>, SymbolTableBinding>::empty(),
    {
        SymbolTable { bindings: Vec::new() }
    }

    /// The root table for one interpretation run, with the two built-in
    /// directives `note` and `exec` bound under their names.
    pub fn root() -> (r: Self)
        ensures
            r.wf(),
            forall|n: Seq<char>| r@.contains_key(n) <==> (n == "note"@ || n == "exec"@),
            r@["note"@] matches SymbolTableBinding::Directive(d) && d.handler == HandlerKind::Note
                && d.name@ == "note"@,
            r@["exec"@] matches SymbolTableBinding::Directive(d) && d.handler == HandlerKind::Exec
                && d.name@ == "exec"@,
    {
        let mut r = SymbolTable::new();
        r.bind(
            "note",
            SymbolTableBinding::Directive(
                Directive { name: String::from_str("note"), handler: HandlerKind::Note },
            ),
        );
        r.bind(
            "exec",
            SymbolTableBinding::Directive(
                Directive { name: String::from_str("exec"), handler: HandlerKind::Exec },
            ),
        );
        proof {
            reveal_strlit("note");
            reveal_strlit("exec");
            assert("note"@[0] != "exec"@[0]);
            assert("note"@ != "exec"@);
        }
        r
    }

    /// The position of the entry named `name`, if one exists.
    fn find_index(&self, name: &str) -> (r: Option<usize>)
        ensures
            match r {
                Some(i) => i < self.bindings@.len() && self.bindings@[i as int].0@ == name@,
                None => forall|i: int|
                    0 <= i < self.bindings@.len() ==> (#[trigger] self.bindings@[i]).0@ != name@,
            },
    {
        let mut i: usize = 0;
        while i < self.bindings.len()
            invariant
                i <= self.bindings@.len(),
                forall|j: int| 0 <= j < i ==> (#[trigger] self.bindings@[j]).0@ != name@,
            decreases self.bindings@.len() - i,
        {
            if str_eq(self.bindings[i].0.as_str(), name) {
                return Some(i);
            }
            i = i + 1;
        }
        None
    }

    /// Binds `name` to `binding`, replacing any earlier binding of the
    /// same name.
    pub fn bind(&mut self, name: &str, binding: SymbolTableBinding)
        requires
            old(self).wf(),
        ensures
            final(self).wf(),
            final(self)@ == old(self)@.insert(name@, binding),
    {
        match self.find_index(name) {
            Some(i) => {
                proof {
                    lemma_assoc_remove(self.bindings@, i as int, name@);
                }
                self.bindings.remove(i);
            },
            None => {
                proof {
                    lemma_assoc_absent(self.bindings@, name@);
                    assert(self@ =~= self@.remove(name@));
                }
            },
        }
        let ghost mid = self.bindings@;
        proof {
            lemma_assoc_absent(mid, name@);
        }
        self.bindings.push((String::from_str(name), binding));
        proof {
            assert(self.bindings@.drop_last() =~= mid);
            assert(self@ == assoc_map(mid).insert(name@, binding));
            assert(assoc_map(mid).insert(name@, binding) =~= old(self)@.insert(name@, binding));
            assert(forall|x: int, y: int|
                0 <= x < y < self.bindings@.len() ==> (#[trigger] self.bindings@[x]).0@ != (
                #[trigger] self.bindings@[y]).0@);
        }
    }

    /// Removes the binding of `name`, if any.
    pub fn unbind(&mut self, name: &str)
        requires
            old(self).wf(),
        ensures
            final(self).wf(),
            final(self)@ == old(self)@.remove(name@),
    {
        match self.find_index(name) {
            Some(i) => {
                proof {
                    lemma_assoc_remove(self.bindings@, i as int, name@);
                }
                self.bindings.remove(i);
            },
            None => {
                proof {
                    lemma_assoc_absent(self.bindings@, name@);
                    assert(self@ =~= self@.remove(name@));
                }
            },
        }
    }

    /// Whether `name` is bound in this table.
    pub fn is_bound(&self, name: &str) -> (r: bool)
        requires
            self.wf(),
        ensures
            r == self@.contains_key(name@),
    {
        match self.find_index(name) {
            Some(i) => {
                proof {
                    lemma_assoc_found(self.bindings@, i as int, name@);
                }
                true
            },
            None => {
                proof {
                    lemma_assoc_absent(self.bindings@, name@);
                }
                false
            },
        }
    }

    /// The binding of `name`, if any.
    pub fn lookup(&self, name: &str) -> (r: Option<&SymbolTableBinding>)
        requires
            self.wf(),
        ensures
            match r {
                Some(b) => self@.contains_key(name@) && *b == self@[name@],
                None => !self@.contains_key(name@),
            },
    {
        match self.find_index(name) {
            Some(i) => {
                proof {
                    lemma_assoc_found(self.bindings@, i as int, name@);
                }
                Some(&self.bindings[i].1)
            },
            None => {
                proof {
                    lemma_assoc_absent(self.bindings@, name@);
                }
                None
            },
        }
    }
}

} // verus!
