//! What registering the driver writes, and what it takes away again.
//!
//! Registering is a separate, optional step that needs administrator rights. It touches nothing
//! but the two places a driver of this kind registers: its own entry, and its class. Every write
//! goes through [`RegistryWriter`], so the whole of it is tested against a registry made of a list.
use vstd::prelude::*;
use crate::guid::spec_registry_string;
use crate::text::{append_str, chars_of, same_chars, trim, trim_chars};
use crate::watch::objection;
use crate::{class_id, spec_class_id, DRIVER_NAME, REGISTRY_KEY};

verus! {

/// Where a driver of this kind publishes itself.
pub const ASIO_ROOT: &'static str = "SOFTWARE\\ASIO";

/// Where COM keeps its classes.
pub const CLSID_ROOT: &'static str = "SOFTWARE\\Classes\\CLSID";

/// One thing asked of a registry.
pub enum RegistryCall {
    /// Make the key at this path.
    CreateKey(Seq<char>),
    /// Set the value of this name under the key at this path.
    SetValue(Seq<char>, Seq<char>, Seq<char>),
    /// Remove the key at this path and everything under it.
    DeleteTree(Seq<char>),
}

/// Every call a writer has been asked, in order, each with the refusal it got if it was refused.
pub type RegistryJournal = Seq<(RegistryCall, Option<Seq<char>>)>;

/// A place to write keys and values. The real one writes under the machine's own registry.
///
/// Every call is written down in [`RegistryWriter::calls`], with what came back, in the order it
/// was made. Whether a call is refused is said by what the writer refuses, which no call changes,
/// and, for a value, by whether its key is there: a value is never written under a key that is
/// not.
pub trait RegistryWriter {
    spec fn calls(&self) -> RegistryJournal;

    /// Whether the key at `path` is there to be written to.
    spec fn has_key(&self, path: Seq<char>) -> bool;

    /// Whether this writer will not make the key at `path`.
    spec fn refuses_key(&self, path: Seq<char>) -> bool;

    /// Whether this writer will not set a value under the key at `path`.
    spec fn refuses_value(&self, path: Seq<char>) -> bool;

    /// Whether this writer will not remove the tree at `path`.
    spec fn refuses_delete(&self, path: Seq<char>) -> bool;

    /// What the writer holds is what its calls say: the same for the same calls.
    spec fn wf(&self) -> bool;

    fn create_key(&mut self, path: &str) -> (result: Result<(), String>)
        requires
            old(self).wf(),
        ensures
            final(self).wf(),
            final(self).calls() == old(self).calls().push((RegistryCall::CreateKey(path@), objection(result))),
            result is Err <==> old(self).refuses_key(path@),
            result is Ok ==> final(self).has_key(path@),
            forall|p: Seq<char>| #[trigger] old(self).has_key(p) ==> final(self).has_key(p),
            forall|p: Seq<char>| #[trigger] final(self).refuses_key(p) == old(self).refuses_key(p),
            forall|p: Seq<char>| #[trigger] final(self).refuses_value(p) == old(self).refuses_value(p),
            forall|p: Seq<char>| #[trigger] final(self).refuses_delete(p) == old(self).refuses_delete(p),
    ;

    fn set_value(&mut self, path: &str, name: &str, value: &str) -> (result: Result<(), String>)
        requires
            old(self).wf(),
        ensures
            final(self).wf(),
            final(self).calls() == old(self).calls().push(
                (RegistryCall::SetValue(path@, name@, value@), objection(result)),
            ),
            result is Err <==> old(self).refuses_value(path@) || !old(self).has_key(path@),
            forall|p: Seq<char>| #[trigger] final(self).has_key(p) == old(self).has_key(p),
            forall|p: Seq<char>| #[trigger] final(self).refuses_key(p) == old(self).refuses_key(p),
            forall|p: Seq<char>| #[trigger] final(self).refuses_value(p) == old(self).refuses_value(p),
            forall|p: Seq<char>| #[trigger] final(self).refuses_delete(p) == old(self).refuses_delete(p),
    ;

    /// Remove a key and everything under it. A key that was not there is not an error.
    fn delete_tree(&mut self, path: &str) -> (result: Result<(), String>)
        requires
            old(self).wf(),
        ensures
            final(self).wf(),
            final(self).calls() == old(self).calls().push((RegistryCall::DeleteTree(path@), objection(result))),
            result is Err <==> old(self).refuses_delete(path@),
            forall|p: Seq<char>| #[trigger] final(self).has_key(p) ==> old(self).has_key(p),
            forall|p: Seq<char>| #[trigger] final(self).refuses_key(p) == old(self).refuses_key(p),
            forall|p: Seq<char>| #[trigger] final(self).refuses_value(p) == old(self).refuses_value(p),
            forall|p: Seq<char>| #[trigger] final(self).refuses_delete(p) == old(self).refuses_delete(p),
    ;
}

pub open spec fn spec_asio_key() -> Seq<char> {
    ASIO_ROOT@ + "\\"@ + REGISTRY_KEY@
}

pub open spec fn spec_class_key() -> Seq<char> {
    CLSID_ROOT@ + "\\"@ + spec_registry_string(spec_class_id())
}

pub open spec fn spec_inproc_key() -> Seq<char> {
    spec_class_key() + "\\InprocServer32"@
}

/// The sentence for a registration with no DLL to register.
pub open spec fn no_path() -> Seq<char> {
    "the DLL being registered has no path"@
}

/// The calls a registration makes of a DLL at `dll`, in order: each key is made before any value
/// is set under it.
pub open spec fn registered_calls(dll: Seq<char>) -> Seq<RegistryCall> {
    seq![
        RegistryCall::CreateKey(spec_asio_key()),
        RegistryCall::SetValue(spec_asio_key(), "CLSID"@, spec_registry_string(spec_class_id())),
        RegistryCall::SetValue(spec_asio_key(), "Description"@, DRIVER_NAME@),
        RegistryCall::CreateKey(spec_class_key()),
        RegistryCall::SetValue(spec_class_key(), ""@, DRIVER_NAME@),
        RegistryCall::CreateKey(spec_inproc_key()),
        RegistryCall::SetValue(spec_inproc_key(), ""@, dll),
        RegistryCall::SetValue(spec_inproc_key(), "ThreadingModel"@, "Apartment"@),
    ]
}

/// The calls unregistering makes, in order.
pub open spec fn unregistered_calls() -> Seq<RegistryCall> {
    seq![RegistryCall::DeleteTree(spec_asio_key()), RegistryCall::DeleteTree(spec_class_key())]
}

/// Calls, each answered without a refusal.
pub open spec fn answered(calls: Seq<RegistryCall>) -> RegistryJournal {
    calls.map_values(|call: RegistryCall| (call, None::<Seq<char>>))
}

/// Which call of a registration a writer refuses first, as it stands before any of it: eight when
/// it refuses none.
pub open spec fn first_refused<W: RegistryWriter>(writer: W) -> int {
    if writer.refuses_key(spec_asio_key()) {
        0
    } else if writer.refuses_value(spec_asio_key()) {
        1
    } else if writer.refuses_key(spec_class_key()) {
        3
    } else if writer.refuses_value(spec_class_key()) {
        4
    } else if writer.refuses_key(spec_inproc_key()) {
        5
    } else if writer.refuses_value(spec_inproc_key()) {
        6
    } else {
        8
    }
}

/// Whether two writers refuse the same calls of a registration.
pub open spec fn refuse_alike<W: RegistryWriter>(a: W, b: W) -> bool {
    &&& a.refuses_key(spec_asio_key()) == b.refuses_key(spec_asio_key())
    &&& a.refuses_value(spec_asio_key()) == b.refuses_value(spec_asio_key())
    &&& a.refuses_key(spec_class_key()) == b.refuses_key(spec_class_key())
    &&& a.refuses_value(spec_class_key()) == b.refuses_value(spec_class_key())
    &&& a.refuses_key(spec_inproc_key()) == b.refuses_key(spec_inproc_key())
    &&& a.refuses_value(spec_inproc_key()) == b.refuses_value(spec_inproc_key())
}

/// The path a call is about.
pub open spec fn path_of(call: RegistryCall) -> Seq<char> {
    match call {
        RegistryCall::CreateKey(path) => path,
        RegistryCall::SetValue(path, _, _) => path,
        RegistryCall::DeleteTree(path) => path,
    }
}

/// The keys a journal shows made, in order.
pub open spec fn made_in(calls: RegistryJournal) -> Seq<Seq<char>>
    decreases calls.len(),
{
    if calls.len() == 0 {
        Seq::empty()
    } else {
        let rest = made_in(calls.drop_last());
        match calls.last() {
            (RegistryCall::CreateKey(path), None) => rest.push(path),
            _ => rest,
        }
    }
}

/// The values a journal shows set, in order, as key, name and value.
pub open spec fn set_in(calls: RegistryJournal) -> Seq<(Seq<char>, Seq<char>, Seq<char>)>
    decreases calls.len(),
{
    if calls.len() == 0 {
        Seq::empty()
    } else {
        let rest = set_in(calls.drop_last());
        match calls.last() {
            (RegistryCall::SetValue(path, name, value), None) => rest.push((path, name, value)),
            _ => rest,
        }
    }
}

/// The trees a journal shows removed, in order.
pub open spec fn deleted_in(calls: RegistryJournal) -> Seq<Seq<char>>
    decreases calls.len(),
{
    if calls.len() == 0 {
        Seq::empty()
    } else {
        let rest = deleted_in(calls.drop_last());
        match calls.last() {
            (RegistryCall::DeleteTree(path), None) => rest.push(path),
            _ => rest,
        }
    }
}

/// What two journals one after the other show is what each shows, one after the other.
pub proof fn lemma_journals_join(first: RegistryJournal, second: RegistryJournal)
    ensures
        made_in(first + second) == made_in(first) + made_in(second),
        set_in(first + second) == set_in(first) + set_in(second),
        deleted_in(first + second) == deleted_in(first) + deleted_in(second),
    decreases second.len(),
{
    if second.len() == 0 {
        assert(first + second =~= first);
        assert(made_in(first) + made_in(second) =~= made_in(first));
        assert(set_in(first) + set_in(second) =~= set_in(first));
        assert(deleted_in(first) + deleted_in(second) =~= deleted_in(first));
    } else {
        lemma_journals_join(first, second.drop_last());
        assert((first + second).drop_last() =~= first + second.drop_last());
        assert((first + second).last() == second.last());
        assert(made_in(first) + made_in(second.drop_last()).push(second.last().0->CreateKey_0) =~= (made_in(first)
            + made_in(second.drop_last())).push(second.last().0->CreateKey_0));
        assert(set_in(first) + set_in(second.drop_last()).push(
            (second.last().0->SetValue_0, second.last().0->SetValue_1, second.last().0->SetValue_2),
        ) =~= (set_in(first) + set_in(second.drop_last())).push(
            (second.last().0->SetValue_0, second.last().0->SetValue_1, second.last().0->SetValue_2),
        ));
        assert(deleted_in(first) + deleted_in(second.drop_last()).push(second.last().0->DeleteTree_0) =~= (
        deleted_in(first) + deleted_in(second.drop_last())).push(second.last().0->DeleteTree_0));
    }
}

/// The keys a registration makes, in order.
pub open spec fn registered_keys() -> Seq<Seq<char>> {
    seq![spec_asio_key(), spec_class_key(), spec_inproc_key()]
}

/// The values a registration sets, in order, for a DLL at `dll`.
pub open spec fn registered_values(dll: Seq<char>) -> Seq<(Seq<char>, Seq<char>, Seq<char>)> {
    seq![
        (spec_asio_key(), "CLSID"@, spec_registry_string(spec_class_id())),
        (spec_asio_key(), "Description"@, DRIVER_NAME@),
        (spec_class_key(), ""@, DRIVER_NAME@),
        (spec_inproc_key(), ""@, dll),
        (spec_inproc_key(), "ThreadingModel"@, "Apartment"@),
    ]
}

/// **A registration makes the entry, the class and the DLL under it, and sets five values under
/// them, deleting nothing.**
pub proof fn law_what_a_registration_writes(dll: Seq<char>)
    ensures
        made_in(answered(registered_calls(dll))) == registered_keys(),
        set_in(answered(registered_calls(dll))) == registered_values(dll),
        deleted_in(answered(registered_calls(dll))) == Seq::<Seq<char>>::empty(),
{
    let journal = answered(registered_calls(dll));
    assert(journal.len() == 8);
    reveal_with_fuel(made_in, 9);
    reveal_with_fuel(set_in, 9);
    reveal_with_fuel(deleted_in, 9);
    assert(journal.take(8) =~= journal);
    assert(journal.drop_last() =~= journal.take(7));
    assert(journal.take(7).drop_last() =~= journal.take(6));
    assert(journal.take(6).drop_last() =~= journal.take(5));
    assert(journal.take(5).drop_last() =~= journal.take(4));
    assert(journal.take(4).drop_last() =~= journal.take(3));
    assert(journal.take(3).drop_last() =~= journal.take(2));
    assert(journal.take(2).drop_last() =~= journal.take(1));
    assert(journal.take(1).drop_last() =~= journal.take(0));
    assert(made_in(journal) =~= registered_keys());
    assert(set_in(journal) =~= registered_values(dll));
    assert(deleted_in(journal) =~= Seq::<Seq<char>>::empty());
}

/// Whether `key` is `tree` or lies under it.
pub open spec fn under(key: Seq<char>, tree: Seq<char>) -> bool {
    tree.len() <= key.len() && key.take(tree.len() as int) == tree
}

/// **Unregistering takes away exactly what registering wrote.** Every call a registration makes
/// is about a key under one of the two trees unregistering deletes.
pub proof fn law_unregistering_leaves_nothing_behind(dll: Seq<char>)
    ensures
        forall|i: int|
            0 <= i < registered_calls(dll).len() ==> under(path_of(#[trigger] registered_calls(dll)[i]), spec_asio_key())
                || under(path_of(registered_calls(dll)[i]), spec_class_key()),
{
    assert(spec_asio_key().take(spec_asio_key().len() as int) =~= spec_asio_key());
    assert(spec_class_key().take(spec_class_key().len() as int) =~= spec_class_key());
    assert(spec_inproc_key().take(spec_class_key().len() as int) =~= spec_class_key());
}

/// The key this driver's own entry lives under.
pub fn asio_key() -> (key: String)
    ensures
        key@ == spec_asio_key(),
{
    let mut key = String::from_str(ASIO_ROOT);
    append_str(&mut key, "\\");
    append_str(&mut key, REGISTRY_KEY);
    key
}

/// The key COM finds the DLL through.
pub fn class_key() -> (key: String)
    ensures
        key@ == spec_class_key(),
{
    let mut key = String::from_str(CLSID_ROOT);
    append_str(&mut key, "\\");
    let id = class_id().to_registry_string();
    append_str(&mut key, id.as_str());
    key
}

pub fn inproc_key() -> (key: String)
    ensures
        key@ == spec_inproc_key(),
{
    let mut key = class_key();
    append_str(&mut key, "\\InprocServer32");
    key
}

/// Write everything a DAW needs to find this driver. `dll` is the full path of the DLL being
/// registered, which is the one thing that is not known until it is on a PC.
///
/// Every key is made before anything is written to it, and the first call the registry refuses
/// stops the rest and is passed on as it came: what was written is then the start of what a
/// registration writes, and nothing else. A blank path asks the registry nothing.
pub fn register<W: RegistryWriter>(writer: &mut W, dll: &str) -> (result: Result<(), String>)
    requires
        old(writer).wf(),
    ensures
        final(writer).wf(),
        trim(dll@).len() == 0 ==> final(writer).calls() == old(writer).calls() && (result matches Err(why)
            && why@ == no_path()),
        trim(dll@).len() > 0 ==> (result is Ok <==> first_refused(*old(writer)) == 8),
        trim(dll@).len() > 0 ==> match result {
            Ok(_) => final(writer).calls() == old(writer).calls() + answered(registered_calls(dll@)),
            Err(why) => final(writer).calls() == old(writer).calls() + answered(
                registered_calls(dll@).take(first_refused(*old(writer))),
            ) + seq![(registered_calls(dll@)[first_refused(*old(writer))], Some(why@))],
        },
{
    let ghost before = writer.calls();
    let ghost w0 = *writer;
    let chars = chars_of(dll);
    let trimmed = trim_chars(&chars);
    if trimmed.len() == 0 {
        return Err(String::from_str("the DLL being registered has no path"));
    }
    let ghost asked = registered_calls(dll@);
    let asio = asio_key();
    let class = class_key();
    let inproc = inproc_key();
    let id = class_id().to_registry_string();
    proof {
        assert(asked.take(0) =~= Seq::<RegistryCall>::empty());
        assert(before + answered(asked.take(0)) =~= before);
    }
    let step = writer.create_key(asio.as_str());
    proof {
        lemma_step(before, writer.calls(), asked, 0, objection(step));
        assert(refuse_alike(w0, *writer));
    }
    if step.is_err() {
        return step;
    }
    let step = writer.set_value(asio.as_str(), "CLSID", id.as_str());
    proof {
        lemma_step(before, writer.calls(), asked, 1, objection(step));
        assert(refuse_alike(w0, *writer));
    }
    if step.is_err() {
        return step;
    }
    let step = writer.set_value(asio.as_str(), "Description", DRIVER_NAME);
    proof {
        lemma_step(before, writer.calls(), asked, 2, objection(step));
        assert(refuse_alike(w0, *writer));
    }
    if step.is_err() {
        return step;
    }
    let step = writer.create_key(class.as_str());
    proof {
        lemma_step(before, writer.calls(), asked, 3, objection(step));
        assert(refuse_alike(w0, *writer));
    }
    if step.is_err() {
        return step;
    }
    let step = writer.set_value(class.as_str(), "", DRIVER_NAME);
    proof {
        lemma_step(before, writer.calls(), asked, 4, objection(step));
        assert(refuse_alike(w0, *writer));
    }
    if step.is_err() {
        return step;
    }
    let step = writer.create_key(inproc.as_str());
    proof {
        lemma_step(before, writer.calls(), asked, 5, objection(step));
        assert(refuse_alike(w0, *writer));
    }
    if step.is_err() {
        return step;
    }
    let step = writer.set_value(inproc.as_str(), "", dll);
    proof {
        lemma_step(before, writer.calls(), asked, 6, objection(step));
        assert(refuse_alike(w0, *writer));
    }
    if step.is_err() {
        return step;
    }
    // Both vendor drivers register Apartment, and this driver calls them from the thread it was
    // made on, so it must be the same.
    let step = writer.set_value(inproc.as_str(), "ThreadingModel", "Apartment");
    proof {
        lemma_step(before, writer.calls(), asked, 7, objection(step));
        assert(refuse_alike(w0, *writer));
        assert(asked.take(8) =~= asked);
    }
    if step.is_err() {
        return step;
    }
    Ok(())
}

/// One more call of `asked`, the one at `done`, answered with `why`, after the ones before it were
/// all answered.
proof fn lemma_step(before: RegistryJournal, after: RegistryJournal, asked: Seq<RegistryCall>, done: int, why: Option<Seq<char>>)
    requires
        0 <= done < asked.len(),
        after == (before + answered(asked.take(done))).push((asked[done], why)),
    ensures
        why is None ==> after == before + answered(asked.take(done + 1)),
        why matches Some(refusal) ==> after == before + answered(asked.take(done)) + seq![(asked[done], Some(refusal))],
{
    assert(answered(asked.take(done + 1)) =~= answered(asked.take(done)).push((asked[done], None::<Seq<char>>)));
    assert((before + answered(asked.take(done))).push((asked[done], why)) =~= before + answered(asked.take(done))
        + seq![(asked[done], why)]);
    assert(before + answered(asked.take(done)).push((asked[done], None::<Seq<char>>)) =~= (before + answered(
        asked.take(done),
    )).push((asked[done], None::<Seq<char>>)));
}

/// Take it all away again, leaving nothing behind: the two trees every key a registration makes
/// sits under. The first removal the registry refuses stops the rest and is passed on as it came.
pub fn unregister<W: RegistryWriter>(writer: &mut W) -> (result: Result<(), String>)
    requires
        old(writer).wf(),
    ensures
        final(writer).wf(),
        result is Ok <==> !old(writer).refuses_delete(spec_asio_key()) && !old(writer).refuses_delete(spec_class_key()),
        match result {
            Ok(_) => final(writer).calls() == old(writer).calls() + answered(unregistered_calls()),
            Err(why) => {
                let done = if old(writer).refuses_delete(spec_asio_key()) {
                    0int
                } else {
                    1int
                };
                final(writer).calls() == old(writer).calls() + answered(unregistered_calls().take(done)) + seq![
                    (unregistered_calls()[done], Some(why@)),
                ]
            },
        },
{
    let ghost before = writer.calls();
    let ghost w0 = *writer;
    let ghost asked = unregistered_calls();
    proof {
        assert(before + answered(asked.take(0)) =~= before);
    }
    let asio = asio_key();
    let step = writer.delete_tree(asio.as_str());
    proof {
        lemma_step(before, writer.calls(), asked, 0, objection(step));
    }
    if step.is_err() {
        return step;
    }
    let class = class_key();
    let step = writer.delete_tree(class.as_str());
    proof {
        lemma_step(before, writer.calls(), asked, 1, objection(step));
        assert(w0.refuses_delete(spec_class_key()) == writer.refuses_delete(spec_class_key()));
        assert(asked.take(2) =~= asked);
    }
    if step.is_err() {
        return step;
    }
    Ok(())
}

/// A registry made of a list, for tests and for saying what registering would do. It refuses to
/// make the one key it is told to, and to write under a key it has not made.
pub struct Recorded {
    /// Every key made, in order.
    pub keys: Vec<String>,
    /// Every value set, as key, name, value.
    pub values: Vec<(String, String, String)>,
    pub deleted: Vec<String>,
    /// A path whose key will not be made, as a locked down PC would.
    pub refuse: Option<String>,
    /// Every call made of it, with what came back.
    pub journal: Ghost<RegistryJournal>,
}

/// The texts of a list of strings.
pub open spec fn texts(list: Seq<String>) -> Seq<Seq<char>> {
    list.map_values(|s: String| s@)
}

/// The texts of a list of values.
pub open spec fn value_texts(list: Seq<(String, String, String)>) -> Seq<(Seq<char>, Seq<char>, Seq<char>)> {
    list.map_values(|v: (String, String, String)| (v.0@, v.1@, v.2@))
}

/// The first value set under `path` with the name `name`.
pub open spec fn spec_value_at(values: Seq<(String, String, String)>, path: Seq<char>, name: Seq<char>, at: int) -> bool {
    &&& 0 <= at < values.len()
    &&& values[at].0@ == path
    &&& values[at].1@ == name
    &&& forall|i: int| 0 <= i < at ==> !(values[i].0@ == path && values[i].1@ == name)
}

fn text_is(a: &String, b: &str) -> (same: bool)
    ensures
        same == (a@ == b@),
{
    let left = chars_of(a.as_str());
    let right = chars_of(b);
    same_chars(&left, &right)
}

impl Recorded {
    /// Nothing written, and nothing refused.
    pub fn new() -> (registry: Recorded)
        ensures
            registry.wf(),
            registry.keys@.len() == 0,
            registry.values@.len() == 0,
            registry.deleted@.len() == 0,
            registry.refuse.is_none(),
            registry.calls() == RegistryJournal::empty(),
    {
        let registry = Recorded {
            keys: Vec::new(),
            values: Vec::new(),
            deleted: Vec::new(),
            refuse: None,
            journal: Ghost(Seq::empty()),
        };
        assert(texts(registry.keys@) =~= made_in(registry.journal@));
        assert(value_texts(registry.values@) =~= set_in(registry.journal@));
        assert(texts(registry.deleted@) =~= deleted_in(registry.journal@));
        registry
    }

    /// The first value set at `path` under `name`.
    pub fn value(&self, path: &str, name: &str) -> (found: Option<&str>)
        ensures
            match found {
                Some(value) => exists|at: int| spec_value_at(self.values@, path@, name@, at) && value@ == self.values@[at].2@,
                None => forall|at: int| !spec_value_at(self.values@, path@, name@, at),
            },
    {
        let mut i: usize = 0;
        while i < self.values.len()
            invariant
                i <= self.values@.len(),
                forall|k: int| 0 <= k < i ==> !(self.values@[k].0@ == path@ && self.values@[k].1@ == name@),
            decreases self.values@.len() - i,
        {
            if text_is(&self.values[i].0, path) && text_is(&self.values[i].1, name) {
                assert(spec_value_at(self.values@, path@, name@, i as int));
                return Some(self.values[i].2.as_str());
            }
            i = i + 1;
        }
        None
    }
}

impl RegistryWriter for Recorded {
    open spec fn calls(&self) -> RegistryJournal {
        self.journal@
    }

    open spec fn has_key(&self, path: Seq<char>) -> bool {
        exists|k: int| 0 <= k < self.keys@.len() && #[trigger] self.keys@[k]@ == path
    }

    open spec fn refuses_key(&self, path: Seq<char>) -> bool {
        self.refuse matches Some(refused) && refused@ == path
    }

    open spec fn refuses_value(&self, path: Seq<char>) -> bool {
        false
    }

    open spec fn refuses_delete(&self, path: Seq<char>) -> bool {
        false
    }

    open spec fn wf(&self) -> bool {
        &&& texts(self.keys@) == made_in(self.journal@)
        &&& value_texts(self.values@) == set_in(self.journal@)
        &&& texts(self.deleted@) == deleted_in(self.journal@)
    }

    fn create_key(&mut self, path: &str) -> (result: Result<(), String>)
        ensures
            result matches Err(why) ==> why@ == path@ + " could not be created: access is denied"@,
            final(self).refuse == old(self).refuse,
    {
        proof {
            reveal_strlit(" could not be created: access is denied");
        }
        let ghost call = RegistryCall::CreateKey(path@);
        if let Some(refused) = &self.refuse {
            if text_is(refused, path) {
                let mut why = String::from_str(path);
                append_str(&mut why, " could not be created: access is denied");
                self.journal = Ghost(self.journal@.push((call, Some(why@))));
                proof {
                    assert(self.journal@.drop_last() =~= old(self).journal@);
                }
                return Err(why);
            }
        }
        self.keys.push(String::from_str(path));
        self.journal = Ghost(self.journal@.push((call, None)));
        proof {
            assert(self.journal@.drop_last() =~= old(self).journal@);
            assert(texts(self.keys@) =~= texts(old(self).keys@).push(path@));
            assert(self.keys@[self.keys@.len() - 1]@ == path@);
            assert forall|p: Seq<char>| #[trigger] old(self).has_key(p) implies self.has_key(p) by {
                let k = choose|k: int| 0 <= k < old(self).keys@.len() && #[trigger] old(self).keys@[k]@ == p;
                assert(self.keys@[k] == old(self).keys@[k]);
            }
        }
        Ok(())
    }

    fn set_value(&mut self, path: &str, name: &str, value: &str) -> (result: Result<(), String>)
        ensures
            result matches Err(why) ==> why@ == path@ + " was written to before it was made"@,
            final(self).refuse == old(self).refuse,
    {
        proof {
            reveal_strlit(" was written to before it was made");
        }
        let ghost call = RegistryCall::SetValue(path@, name@, value@);
        let mut made = false;
        let mut i: usize = 0;
        while i < self.keys.len()
            invariant
                i <= self.keys@.len(),
                made <==> exists|k: int| 0 <= k < i && #[trigger] self.keys@[k]@ == path@,
            decreases self.keys@.len() - i,
        {
            if text_is(&self.keys[i], path) {
                made = true;
            }
            i = i + 1;
        }
        if !made {
            let mut why = String::from_str(path);
            append_str(&mut why, " was written to before it was made");
            self.journal = Ghost(self.journal@.push((call, Some(why@))));
            proof {
                assert(self.journal@.drop_last() =~= old(self).journal@);
            }
            return Err(why);
        }
        self.values.push((String::from_str(path), String::from_str(name), String::from_str(value)));
        self.journal = Ghost(self.journal@.push((call, None)));
        proof {
            assert(self.journal@.drop_last() =~= old(self).journal@);
            assert(value_texts(self.values@) =~= value_texts(old(self).values@).push((path@, name@, value@)));
        }
        Ok(())
    }

    fn delete_tree(&mut self, path: &str) -> (result: Result<(), String>)
        ensures
            result is Ok,
            final(self).refuse == old(self).refuse,
    {
        self.deleted.push(String::from_str(path));
        self.journal = Ghost(self.journal@.push((RegistryCall::DeleteTree(path@), None)));
        proof {
            assert(self.journal@.drop_last() =~= old(self).journal@);
            assert(texts(self.deleted@) =~= texts(old(self).deleted@).push(path@));
        }
        Ok(())
    }
}

} // verus!
