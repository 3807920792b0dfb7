//! The registry of primitives.
use crate::backend::ExternalFunctionId;
use vstd::prelude::*;

verus! {

/// What an id of the registry stands for.
#[derive(Clone, Debug)]
pub enum Entry {
    /// A primitive.
    Func,
    /// A sentinel that fails with a message when it is invoked.
    Panic(String),
    /// A freed id.
    Free,
}

/// What an id of the registry stands for, as a value.
pub enum EntryView {
    Func,
    Panic(Seq<char>),
    Free,
}

impl View for Entry {
    type V = EntryView;

    open spec fn view(&self) -> EntryView {
        match self {
            Entry::Func => EntryView::Func,
            Entry::Panic(m) => EntryView::Panic(m@),
            Entry::Free => EntryView::Free,
        }
    }
}

/// A grow-only registry of primitives. A freed id is not handed out again.
#[derive(Clone, Debug)]
pub struct ExternalFuncRegistry {
    slots: Vec<Entry>,
    names: Vec<Option<String>>,
}

/// The display name of an id as a value.
pub open spec fn name_view(n: Option<String>) -> Option<Seq<char>> {
    match n {
        Some(s) => Some(s@),
        None => None,
    }
}

impl ExternalFuncRegistry {
    /// What each id stands for.
    pub closed spec fn entries(&self) -> Seq<EntryView> {
        self.slots@.map_values(|e: Entry| e@)
    }

    /// The display name of each id.
    pub closed spec fn names(&self) -> Seq<Option<Seq<char>>> {
        self.names@.map_values(|n: Option<String>| name_view(n))
    }

    /// Each id has a place for a name, and there are no more ids than fit.
    pub closed spec fn wf(&self) -> bool {
        &&& self.names@.len() == self.slots@.len()
        &&& self.slots@.len() <= u32::MAX + 1
    }

    /// The name of `id`, if it has one.
    pub open spec fn name_of(&self, id: ExternalFunctionId) -> Option<Seq<char>> {
        if id.rep < self.names().len() {
            self.names()[id.rep as int]
        } else {
            None
        }
    }

    pub broadcast proof fn lemma_lens(&self)
        ensures
            #[trigger] self.wf() ==> self.names().len() == self.entries().len(),
    {
    }

    /// An empty registry.
    pub fn new() -> (r: ExternalFuncRegistry)
        ensures
            r.wf(),
            r.entries() == Seq::<EntryView>::empty(),
            r.names() == Seq::<Option<Seq<char>>>::empty(),
    {
        let r = ExternalFuncRegistry { slots: Vec::new(), names: Vec::new() };
        assert(r.entries() =~= Seq::<EntryView>::empty());
        assert(r.names() =~= Seq::<Option<Seq<char>>>::empty());
        r
    }

    fn add(&mut self, e: Entry) -> (id: ExternalFunctionId)
        requires
            old(self).wf(),
            old(self).entries().len() <= u32::MAX,
        ensures
            final(self).wf(),
            id.rep == old(self).entries().len(),
            final(self).entries() == old(self).entries().push(e@),
            final(self).names() == old(self).names().push(None),
    {
        let id = ExternalFunctionId::new(self.slots.len() as u32);
        self.slots.push(e);
        self.names.push(None);
        assert(self.entries() =~= old(self).entries().push(e@));
        assert(self.names() =~= old(self).names().push(None));
        id
    }

    /// Registers a primitive under the next id.
    pub fn add_func(&mut self) -> (id: ExternalFunctionId)
        requires
            old(self).wf(),
            old(self).entries().len() <= u32::MAX,
        ensures
            final(self).wf(),
            id.rep == old(self).entries().len(),
            final(self).entries() == old(self).entries().push(EntryView::Func),
            final(self).names() == old(self).names().push(None),
    {
        self.add(Entry::Func)
    }

    /// Registers a sentinel with a message under the next id.
    pub fn add_panic(&mut self, message: String) -> (id: ExternalFunctionId)
        requires
            old(self).wf(),
            old(self).entries().len() <= u32::MAX,
        ensures
            final(self).wf(),
            id.rep == old(self).entries().len(),
            final(self).entries() == old(self).entries().push(EntryView::Panic(message@)),
            final(self).names() == old(self).names().push(None),
    {
        self.add(Entry::Panic(message))
    }

    /// Frees an id. An id that is unknown or already free is left as it is.
    pub fn free(&mut self, id: ExternalFunctionId)
        requires
            old(self).wf(),
        ensures
            final(self).wf(),
            final(self).names() == old(self).names(),
            final(self).entries() == (if id.rep < old(self).entries().len() {
                old(self).entries().update(id.rep as int, EntryView::Free)
            } else {
                old(self).entries()
            }),
    {
        let i: usize = id.rep as usize;
        if i < self.slots.len() {
            self.slots[i] = Entry::Free;
            assert(self.entries() =~= old(self).entries().update(id.rep as int, EntryView::Free));
        }
    }

    /// The message of a sentinel; none for any other id.
    pub fn panic_message(&self, id: ExternalFunctionId) -> (m: Option<&str>)
        requires
            self.wf(),
        ensures
            m is Some <==> id.rep < self.entries().len() && self.entries()[id.rep as int] is Panic,
            m matches Some(s) ==> self.entries()[id.rep as int] == EntryView::Panic(s@),
    {
        let i: usize = id.rep as usize;
        if i < self.slots.len() {
            assert(self.entries()[i as int] == self.slots@[i as int]@);
            match &self.slots[i] {
                Entry::Panic(m) => Some(m.as_str()),
                _ => None,
            }
        } else {
            None
        }
    }

    /// Whether an id was handed out.
    pub fn is_known(&self, id: ExternalFunctionId) -> (b: bool)
        requires
            self.wf(),
        ensures
            b == (id.rep < self.names().len()),
    {
        (id.rep as usize) < self.names.len()
    }

    /// Records the display name of a registered id; an unknown id is ignored.
    pub fn set_name(&mut self, id: ExternalFunctionId, name: String)
        requires
            old(self).wf(),
        ensures
            final(self).wf(),
            final(self).entries() == old(self).entries(),
            final(self).names() == (if id.rep < old(self).names().len() {
                old(self).names().update(id.rep as int, Some(name@))
            } else {
                old(self).names()
            }),
    {
        let i: usize = id.rep as usize;
        if i < self.names.len() {
            self.names[i] = Some(name);
            assert(self.names() =~= old(self).names().update(id.rep as int, Some(name@)));
        }
    }

    /// The display name of an id.
    pub fn name(&self, id: ExternalFunctionId) -> (n: Option<&str>)
        requires
            self.wf(),
        ensures
            n is Some <==> self.name_of(id) is Some,
            n matches Some(s) ==> self.name_of(id) == Some(s@),
    {
        let i: usize = id.rep as usize;
        if i < self.names.len() {
            assert(self.names()[i as int] == name_view(self.names@[i as int]));
            match &self.names[i] {
                Some(s) => Some(s.as_str()),
                None => None,
            }
        } else {
            None
        }
    }
}

impl Default for ExternalFuncRegistry {
    fn default() -> (r: ExternalFuncRegistry)
        ensures
            r.wf(),
            r.entries() == Seq::<EntryView>::empty(),
            r.names() == Seq::<Option<Seq<char>>>::empty(),
    {
        ExternalFuncRegistry::new()
    }
}

} // verus!
