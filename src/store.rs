use vstd::prelude::*;
use vstd::string::*;

use crate::compile::{compile, compile_error_of, compile_message, compiles, compiles_to, CompileError};
use crate::vm::{wf_program, Object, Program};

verus! {

/// A stored rule file.
#[derive(Clone, Debug)]
pub struct RuleFile {
    pub id: i64,
    pub name: String,
    pub content: String,
}

impl RuleFile {
    pub fn copy(&self) -> (r: RuleFile)
        ensures
            r.id == self.id,
            r.name@ == self.name@,
            r.content@ == self.content@,
    {
        RuleFile {
            id: self.id,
            name: String::from_str(self.name.as_str()),
            content: String::from_str(self.content.as_str()),
        }
    }
}

/// Why an administrative call failed; the message describes the cause.
#[derive(Clone, Debug)]
pub enum Error {
    Anyhow(String),
}

/// What `request` says of an id that the store does not hold.
pub const NO_SUCH_RULEFILE: &'static str = "Failed to query rulefile: no such id";

/// An indexed collection of rule files with ids assigned from 1 upwards; the slot at
/// `id - 1` holds the file with that id until it is deleted, and no id is used twice.
pub struct RuleStore {
    slots: Vec<Option<RuleFile>>,
}

/// What the store holds for one id: the name and the content.
pub type RecordView = (Seq<char>, Seq<char>);

impl RuleStore {
    /// The id that the next `create` assigns.
    pub closed spec fn next_id(&self) -> i64 {
        (self.slots@.len() + 1) as i64
    }

    pub closed spec fn wf(&self) -> bool {
        &&& self.slots@.len() < i64::MAX
        &&& forall|i: int|
            0 <= i < self.slots@.len() ==> (#[trigger] self.slots@[i] matches Some(f) ==> f.id
                == i + 1)
    }

    /// The records by id.
    pub closed spec fn view(&self) -> Map<i64, RecordView> {
        Map::new(
            |id: i64| 1 <= id <= self.slots@.len() && self.slots@[id - 1] is Some,
            |id: i64|
                (self.slots@[id - 1]->Some_0.name@, self.slots@[id - 1]->Some_0.content@),
        )
    }

    /// An empty store.
    pub fn new() -> (r: RuleStore)
        ensures
            r.wf(),
            r@ == Map::<i64, RecordView>::empty(),
            r.next_id() == 1,
    {
        let r = RuleStore { slots: Vec::new() };
        assert(r@ =~= Map::<i64, RecordView>::empty());
        r
    }

    /// Stores a new file under a fresh id, the smallest never assigned, and returns it.
    pub fn create(&mut self, name: String, content: String) -> (r: Result<i64, Error>)
        requires
            old(self).wf(),
        ensures
            final(self).wf(),
            match r {
                Ok(id) => {
                    &&& id == old(self).next_id()
                    &&& !old(self)@.contains_key(id)
                    &&& final(self)@ == old(self)@.insert(id, (name@, content@))
                    &&& final(self).next_id() == id + 1
                },
                Err(_) => final(self)@ == old(self)@ && final(self).next_id() == old(self).next_id()
                    && old(self).next_id() == i64::MAX,
            },
    {
        let n = self.slots.len();
        if n as i64 >= i64::MAX - 1 {
            return Err(Error::Anyhow(String::from_str("the store is full")));
        }
        let id = n as i64 + 1;
        let ghost before = *self;
        self.slots.push(Some(RuleFile { id, name, content }));
        assert(self@ =~= before@.insert(id, (name@, content@)));
        Ok(id)
    }

    /// The file with id `id`.
    pub fn request(&self, id: i64) -> (r: Result<RuleFile, Error>)
        requires
            self.wf(),
        ensures
            match r {
                Ok(f) => self@.contains_key(id) && f.id == id && self@[id] == (f.name@, f.content@),
                Err(Error::Anyhow(m)) => !self@.contains_key(id) && m@ == NO_SUCH_RULEFILE@,
            },
    {
        if id < 1 || id > self.slots.len() as i64 {
            return Err(Error::Anyhow(String::from_str(NO_SUCH_RULEFILE)));
        }
        match &self.slots[(id - 1) as usize] {
            Some(f) => Ok(f.copy()),
            None => Err(Error::Anyhow(String::from_str(NO_SUCH_RULEFILE))),
        }
    }

    /// Replaces the content of the file with id `id`.
    pub fn update(&mut self, id: i64, content: String) -> (r: Result<(), Error>)
        requires
            old(self).wf(),
        ensures
            final(self).wf(),
            final(self).next_id() == old(self).next_id(),
            match r {
                Ok(_) => old(self)@.contains_key(id) && final(self)@ == old(self)@.insert(
                    id,
                    (old(self)@[id].0, content@),
                ),
                Err(_) => !old(self)@.contains_key(id) && final(self)@ == old(self)@,
            },
    {
        if id < 1 || id > self.slots.len() as i64 {
            return Err(Error::Anyhow(String::from_str("Failed to update rulefile: no such id")));
        }
        let i = (id - 1) as usize;
        let name = match &self.slots[i] {
            Some(f) => String::from_str(f.name.as_str()),
            None => {
                return Err(Error::Anyhow(String::from_str("Failed to update rulefile: no such id")));
            },
        };
        let ghost before = *self;
        self.slots.set(i, Some(RuleFile { id, name, content }));
        assert(self@ =~= before@.insert(id, (before@[id].0, content@)));
        Ok(())
    }

    /// Removes the file with id `id`; its id is not assigned again.
    pub fn delete(&mut self, id: i64) -> (r: Result<(), Error>)
        requires
            old(self).wf(),
        ensures
            final(self).wf(),
            final(self).next_id() == old(self).next_id(),
            final(self)@ == old(self)@.remove(id),
            r is Ok <==> old(self)@.contains_key(id),
    {
        if id < 1 || id > self.slots.len() as i64 {
            assert(self@.remove(id) =~= self@);
            return Err(Error::Anyhow(String::from_str("Failed to delete rulefile: no such id")));
        }
        let i = (id - 1) as usize;
        if self.slots[i].is_none() {
            assert(self@.remove(id) =~= self@);
            return Err(Error::Anyhow(String::from_str("Failed to delete rulefile: no such id")));
        }
        let ghost before = *self;
        self.slots.set(i, None);
        assert(self@ =~= before@.remove(id));
        Ok(())
    }

    /// Every stored file, by increasing id.
    pub fn list(&self) -> (r: Vec<RuleFile>)
        requires
            self.wf(),
        ensures
            forall|i: int|
                0 <= i < r@.len() ==> self@.contains_key(#[trigger] r@[i].id) && self@[r@[i].id]
                    == (r@[i].name@, r@[i].content@),
            forall|i: int, j: int| 0 <= i < j < r@.len() ==> r@[i].id < r@[j].id,
            forall|id: i64| #[trigger] self@.contains_key(id) ==> exists|i: int|
                0 <= i < r@.len() && r@[i].id == id,
    {
        let mut out: Vec<RuleFile> = Vec::new();
        let mut k: usize = 0;
        while k < self.slots.len()
            invariant
                self.wf(),
                k <= self.slots@.len(),
                forall|i: int|
                    0 <= i < out@.len() ==> self@.contains_key(#[trigger] out@[i].id)
                        && self@[out@[i].id] == (out@[i].name@, out@[i].content@) && out@[i].id
                        <= k,
                forall|i: int, j: int| 0 <= i < j < out@.len() ==> out@[i].id < out@[j].id,
                forall|id: i64|
                    #[trigger] self@.contains_key(id) && id <= k ==> exists|i: int|
                        0 <= i < out@.len() && out@[i].id == id,
            decreases self.slots@.len() - k,
        {
            match &self.slots[k] {
                Some(f) => {
                    let ghost before = out@;
                    let c = f.copy();
                    out.push(c);
                    assert(self@.contains_key((k + 1) as i64));
                    assert forall|id: i64|
                        #[trigger] self@.contains_key(id) && id <= k + 1 implies exists|i: int|
                        0 <= i < out@.len() && out@[i].id == id by {
                        if id == k + 1 {
                            assert(out@[out@.len() - 1].id == id);
                        } else {
                            let i = choose|i: int| 0 <= i < before.len() && before[i].id == id;
                            assert(out@[i].id == id);
                        }
                    }
                },
                None => {
                    assert forall|id: i64|
                        #[trigger] self@.contains_key(id) && id <= k + 1 implies exists|i: int|
                        0 <= i < out@.len() && out@[i].id == id by {
                        if id == k + 1 {
                            assert(!self@.contains_key(id));
                        }
                    }
                },
            }
            k += 1;
        }
        out
    }
}

/// Creating a file and then deleting the id that `create` returned leaves every read as it
/// was before: the store holds exactly the records it held.
pub proof fn lemma_create_then_delete(store: RuleStore, name: Seq<char>, content: Seq<char>)
    requires
        store.wf(),
    ensures
        !store@.contains_key(store.next_id()),
        store@.insert(store.next_id(), (name, content)).remove(store.next_id()) == store@,
{
    assert(store@.insert(store.next_id(), (name, content)).remove(store.next_id()) =~= store@);
}

/// Ids are strictly increasing over the life of a store: an id that `create` hands out is
/// above every id that the store holds or has handed out before, since deletions and
/// updates leave the next id as it is.
pub proof fn lemma_ids_increase(store: RuleStore, id: i64)
    requires
        store.wf(),
        id == store.next_id(),
    ensures
        forall|old_id: i64| #[trigger] store@.contains_key(old_id) ==> old_id < id,
{
}

/// `m` describes an error that compiling `c` meets.
pub open spec fn is_compile_message(c: Seq<char>, m: Seq<char>) -> bool {
    exists|e: CompileError| #[trigger] compile_error_of(c, e) && compile_message(e) == m
}

/// Compiles the content of the file with id `id` and installs it as the active program.
/// It succeeds exactly when the store holds `id` and its content compiles; the program
/// installed is the lowering of what the content's parse tree builds to. On any error the active
/// program is left as it was, and the message is `request`'s for a missing id or the
/// compile error's.
pub fn set_program(store: &RuleStore, id: i64, active: &mut Program) -> (r: Result<(), Error>)
    requires
        store.wf(),
    ensures
        r is Ok ==> store@.contains_key(id) && compiles(store@[id].1) && compiles_to(
            store@[id].1,
            final(active).instructions@,
            final(active).data@.map_values(|o: Object| o@),
        ) && wf_program(final(active)),
        store@.contains_key(id) && compiles(store@[id].1) ==> r is Ok,
        r is Err ==> *final(active) == *old(active),
        r is Err ==> !store@.contains_key(id) || !compiles(store@[id].1),
        r matches Err(Error::Anyhow(m)) ==> if store@.contains_key(id) {
            is_compile_message(store@[id].1, m@)
        } else {
            m@ == NO_SUCH_RULEFILE@
        },
{
    let file = match store.request(id) {
        Ok(f) => f,
        Err(e) => {
            return Err(e);
        },
    };
    match compile(file.content.as_str()) {
        Ok(p) => {
            *active = p;
            Ok(())
        },
        Err(e) => Err(Error::Anyhow(e.message())),
    }
}

/// Compiles the content of the file with id `id` into a program to install, as
/// `set_program` does, and returns it.
pub fn load_program(store: &RuleStore, id: i64) -> (r: Result<Program, Error>)
    requires
        store.wf(),
    ensures
        r matches Ok(p) ==> store@.contains_key(id) && compiles(store@[id].1) && compiles_to(
            store@[id].1,
            p.instructions@,
            p.data@.map_values(|o: Object| o@),
        ) && wf_program(&p),
        store@.contains_key(id) && compiles(store@[id].1) ==> r is Ok,
        r is Err ==> !store@.contains_key(id) || !compiles(store@[id].1),
        r matches Err(Error::Anyhow(m)) ==> if store@.contains_key(id) {
            is_compile_message(store@[id].1, m@)
        } else {
            m@ == NO_SUCH_RULEFILE@
        },
{
    let file = match store.request(id) {
        Ok(f) => f,
        Err(e) => {
            return Err(e);
        },
    };
    match compile(file.content.as_str()) {
        Ok(p) => Ok(p),
        Err(e) => Err(Error::Anyhow(e.message())),
    }
}

} // verus!
