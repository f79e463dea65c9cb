//! A store of named strings kept from one session to the next in a JSON
//! file (for example the size and position of a window).
//!
//! Until the store is given its data file it holds nothing: recalling gives
//! `None` (or the default offered) and remembering is ignored. Reading and
//! writing the file is left to the caller: loading takes the file's bytes,
//! and remembering hands back the bytes to write.

use vstd::prelude::*;

use crate::json::{
    entries_map, entries_view, json_object_text, json_string_members, keys_distinct, loaded,
    parse_string_members, write_string_members,
};
use crate::home::reportable_home;
use crate::path_buf::PathBuf;
use crate::resolve::{
    absolute_path_buf, opt_path, path_result, path_type, spec_absolute_path_buf, PathExtError,
    PathType,
};

verus! {

/// Why the store could not do what was asked.
#[derive(Debug)]
pub enum RecollectError {
    /// Reading or writing the data file failed.
    IoError,
    /// The data file's path could not be made absolute.
    FilePathError(PathExtError),
    /// The data file does not hold a JSON object of strings, or the store
    /// could not be written as one.
    SerdeError(serde_json::Error),
}

/// What recalling `name` gives of `store`.
pub open spec fn recalled(store: Map<Seq<char>, Seq<char>>, name: Seq<char>) -> Option<Seq<char>> {
    if store.contains_key(name) {
        Some(store[name])
    } else {
        None
    }
}

/// The store after remembering `value` under `name`: changed once there is
/// a data file, left as it is before.
pub open spec fn remembered(
    data_file: Option<Seq<u8>>,
    store: Map<Seq<char>, Seq<char>>,
    name: Seq<char>,
    value: Seq<char>,
) -> Map<Seq<char>, Seq<char>> {
    if data_file is Some {
        store.insert(name, value)
    } else {
        store
    }
}

/// An optional string seen through its text.
pub open spec fn opt_text(o: Option<String>) -> Option<Seq<char>> {
    match o {
        Some(s) => Some(s@),
        None => None,
    }
}

proof fn lemma_entries_map_lookup(s: Seq<(Seq<char>, Seq<char>)>, i: int)
    requires
        keys_distinct(s),
        0 <= i < s.len(),
    ensures
        entries_map(s).contains_key(s[i].0),
        entries_map(s)[s[i].0] == s[i].1,
    decreases s.len(),
{
    if i < s.len() - 1 {
        let t = s.drop_last();
        assert(t[i] == s[i]);
        assert(s[i].0 != s[s.len() - 1].0);
        lemma_entries_map_lookup(t, i);
    }
}

proof fn lemma_entries_map_absent(s: Seq<(Seq<char>, Seq<char>)>, k: Seq<char>)
    requires
        forall|i: int| 0 <= i < s.len() ==> #[trigger] s[i].0 != k,
    ensures
        !entries_map(s).contains_key(k),
    decreases s.len(),
{
    if s.len() > 0 {
        let t = s.drop_last();
        assert forall|i: int| 0 <= i < t.len() implies #[trigger] t[i].0 != k by {
            assert(t[i] == s[i]);
        }
        lemma_entries_map_absent(t, k);
    }
}

proof fn lemma_entries_map_update(s: Seq<(Seq<char>, Seq<char>)>, i: int, v: Seq<char>)
    requires
        keys_distinct(s),
        0 <= i < s.len(),
    ensures
        entries_map(s.update(i, (s[i].0, v))) == entries_map(s).insert(s[i].0, v),
    decreases s.len(),
{
    let k = s[i].0;
    let u = s.update(i, (k, v));
    let t = s.drop_last();
    if i == s.len() - 1 {
        assert(u.drop_last() =~= t);
        assert(entries_map(u) =~= entries_map(s).insert(k, v));
    } else {
        assert(u.drop_last() =~= t.update(i, (k, v)));
        assert(t[i] == s[i]);
        assert(s[i].0 != s[s.len() - 1].0);
        lemma_entries_map_update(t, i, v);
        assert(entries_map(u) =~= entries_map(s).insert(k, v));
    }
}

/// The named strings, each name once.
#[derive(Debug)]
pub struct RecollectionDb {
    entries: Vec<(String, String)>,
}

impl RecollectionDb {
    #[verifier::type_invariant]
    spec fn names_distinct(self) -> bool {
        keys_distinct(entries_view(self.entries@))
    }

    /// The pairs held, in the order they are kept.
    pub closed spec fn members(self) -> Seq<(Seq<char>, Seq<char>)> {
        entries_view(self.entries@)
    }
}

impl View for RecollectionDb {
    type V = Map<Seq<char>, Seq<char>>;

    closed spec fn view(&self) -> Map<Seq<char>, Seq<char>> {
        entries_map(entries_view(self.entries@))
    }
}

impl RecollectionDb {
    /// The empty store.
    pub fn new() -> (r: RecollectionDb)
        ensures
            r@ == Map::<Seq<char>, Seq<char>>::empty(),
    {
        let r = RecollectionDb { entries: Vec::new() };
        assert(entries_view(r.entries@) =~= Seq::<(Seq<char>, Seq<char>)>::empty());
        r
    }

    /// Where `name` is held, if it is.
    fn position(&self, name: &String) -> (r: Option<usize>)
        ensures
            r matches Some(i) ==> i < self.members().len() && self.members()[i as int].0
                == name@,
            r is None ==> forall|i: int|
                0 <= i < self.members().len() ==> #[trigger] self.members()[i].0 != name@,
    {
        let mut i: usize = 0;
        while i < self.entries.len()
            invariant
                i <= self.entries@.len(),
                forall|t: int| 0 <= t < i ==> #[trigger] self.members()[t].0 != name@,
            decreases self.entries@.len() - i,
        {
            assert(self.members()[i as int].0 == self.entries@[i as int].0@);
            if self.entries[i].0 == *name {
                return Some(i);
            }
            i = i + 1;
        }
        None
    }

    /// The string held for `name`, if any.
    pub fn get(&self, name: &str) -> (r: Option<String>)
        ensures
            r matches Some(v) ==> self@.contains_key(name@) && v@ == self@[name@],
            r is None ==> !self@.contains_key(name@),
    {
        proof {
            use_type_invariant(self);
        }
        let key = name.to_owned();
        match self.position(&key) {
            Some(i) => {
                proof {
                    lemma_entries_map_lookup(self.members(), i as int);
                }
                Some(self.entries[i].1.clone())
            },
            None => {
                proof {
                    lemma_entries_map_absent(self.members(), name@);
                }
                None
            },
        }
    }

    /// Holds `value` for `name`, in place of what was held for it before.
    pub fn insert(&mut self, name: String, value: String)
        ensures
            final(self)@ == old(self)@.insert(name@, value@),
    {
        proof {
            use_type_invariant(&*self);
        }
        let ghost before = self.members();
        let found = self.position(&name);
        let mut entries: Vec<(String, String)> = Vec::new();
        std::mem::swap(&mut entries, &mut self.entries);
        assert(entries_view(entries@) == before);
        match found {
            Some(i) => {
                entries.set(i, (name, value));
                proof {
                    assert(entries_view(entries@) =~= before.update(
                        i as int,
                        (before[i as int].0, value@),
                    ));
                    lemma_entries_map_update(before, i as int, value@);
                    assert forall|a: int, b: int|
                        0 <= a < b < entries_view(entries@).len() implies #[trigger] entries_view(
                        entries@,
                    )[a].0 != #[trigger] entries_view(entries@)[b].0 by {
                        assert(entries_view(entries@)[a].0 == before[a].0);
                        assert(entries_view(entries@)[b].0 == before[b].0);
                    }
                }
                self.entries = entries;
            },
            None => {
                let ghost pair = (name@, value@);
                entries.push((name, value));
                proof {
                    assert(entries_view(entries@) =~= before.push(pair));
                    assert(entries_view(entries@).drop_last() =~= before);
                    assert forall|a: int, b: int|
                        0 <= a < b < entries_view(entries@).len() implies #[trigger] entries_view(
                        entries@,
                    )[a].0 != #[trigger] entries_view(entries@)[b].0 by {
                        if b < before.len() {
                            assert(entries_view(entries@)[a] == before[a]);
                            assert(entries_view(entries@)[b] == before[b]);
                        } else {
                            assert(entries_view(entries@)[a] == before[a]);
                        }
                    }
                }
                self.entries = entries;
            },
        }
    }

    /// The store holding the pairs of `members`, a later pair for a name
    /// winning over an earlier one.
    pub fn from_members(members: Vec<(String, String)>) -> (r: RecollectionDb)
        ensures
            r@ == entries_map(entries_view(members@)),
    {
        let mut db = RecollectionDb::new();
        let ghost s = entries_view(members@);
        let mut i: usize = 0;
        while i < members.len()
            invariant
                i <= members@.len(),
                s == entries_view(members@),
                db@ == entries_map(s.take(i as int)),
            decreases members@.len() - i,
        {
            assert(s.take(i + 1).drop_last() =~= s.take(i as int));
            assert(s.take(i + 1).last() == (members@[i as int].0@, members@[i as int].1@));
            db.insert(members[i].0.clone(), members[i].1.clone());
            i = i + 1;
        }
        assert(s.take(members@.len() as int) =~= s);
        db
    }

    /// The JSON text of the store.
    fn to_json(&self) -> (r: Result<Vec<u8>, serde_json::Error>)
        ensures
            r matches Ok(b) && b@ == json_object_text(self.members()) && loaded(b@) == Some(self@),
    {
        proof {
            use_type_invariant(self);
        }
        write_string_members(&self.entries)
    }
}

/// The text written to a new, empty data file.
pub fn empty_store_text() -> (r: Result<Vec<u8>, RecollectError>)
    ensures
        r matches Ok(b) && b@ == json_object_text(Seq::empty()) && loaded(b@) == Some(
            Map::<Seq<char>, Seq<char>>::empty(),
        ),
{
    let entries: Vec<(String, String)> = Vec::new();
    let r = write_string_members(&entries);
    assert(entries_view(entries@) =~= Seq::<(Seq<char>, Seq<char>)>::empty());
    assert(entries_map(Seq::<(Seq<char>, Seq<char>)>::empty()) =~= Map::<Seq<char>, Seq<char>>::empty());
    match r {
        Ok(b) => Ok(b),
        Err(e) => Err(RecollectError::SerdeError(e)),
    }
}

/// The data file of a store: the absolute form of the path `given`, worked
/// out with `cur` as the current directory.
pub struct DataFile {
    path: PathBuf,
    given: Ghost<Seq<u8>>,
    cur: Ghost<Option<Seq<u8>>>,
}

impl DataFile {
    #[verifier::type_invariant]
    spec fn is_absolute_form(self) -> bool {
        exists|home: Option<Seq<u8>>|
            reportable_home(home) && #[trigger] spec_absolute_path_buf(self.given@, self.cur@, home) == Ok::<
                Seq<u8>,
                PathExtError,
            >(self.path@)
    }

    /// The path that was given.
    pub closed spec fn given(self) -> Seq<u8> {
        self.given@
    }

    /// The current directory it was worked out with.
    pub closed spec fn cur(self) -> Option<Seq<u8>> {
        self.cur@
    }

    /// The absolute path of the data file.
    pub fn path(&self) -> (r: &PathBuf)
        ensures
            r@ == self@,
            exists|home: Option<Seq<u8>>|
                reportable_home(home) && #[trigger] spec_absolute_path_buf(self.given(), self.cur(), home) == Ok::<
                    Seq<u8>,
                    PathExtError,
                >(self@),
    {
        proof {
            use_type_invariant(self);
            let home = choose|home: Option<Seq<u8>>|
                reportable_home(home) && spec_absolute_path_buf(self.given@, self.cur@, home) == Ok::<
                    Seq<u8>,
                    PathExtError,
                >(self.path@);
            assert(spec_absolute_path_buf(self.given(), self.cur(), home) == Ok::<
                Seq<u8>,
                PathExtError,
            >(self@));
        }
        &self.path
    }
}

impl View for DataFile {
    type V = Seq<u8>;

    closed spec fn view(&self) -> Seq<u8> {
        self.path@
    }
}

/// The data file at `file_path`, made absolute with `cur_dir` as the
/// current directory.
pub fn data_file_path(file_path: &PathBuf, cur_dir: Option<&PathBuf>) -> (r: Result<
    DataFile,
    RecollectError,
>)
    ensures
        exists|home: Option<Seq<u8>>|
            reportable_home(home) && match #[trigger] spec_absolute_path_buf(
                file_path@,
                opt_path(cur_dir),
                home,
            ) {
                Ok(p) => r matches Ok(q) && q@ == p,
                Err(e) => r matches Err(RecollectError::FilePathError(f)) && f == e,
            },
        r matches Ok(q) ==> q.given() == file_path@ && q.cur() == opt_path(cur_dir),
        path_type(file_path@) != PathType::RelativeHomeDir ==> match spec_absolute_path_buf(
            file_path@,
            opt_path(cur_dir),
            None,
        ) {
            Ok(p) => r matches Ok(q) && q@ == p,
            Err(e) => r matches Err(RecollectError::FilePathError(f)) && f == e,
        },
{
    let a = absolute_path_buf(file_path, cur_dir);
    let ghost home = choose|home: Option<Seq<u8>>|
        reportable_home(home) && path_result(a) == spec_absolute_path_buf(file_path@, opt_path(cur_dir), home);
    match a {
        Ok(p) => {
            let ghost pv = p@;
            assert(spec_absolute_path_buf(file_path@, opt_path(cur_dir), home) == Ok::<
                Seq<u8>,
                PathExtError,
            >(pv));
            Ok(DataFile { path: p, given: Ghost(file_path@), cur: Ghost(opt_path(cur_dir)) })
        },
        Err(e) => Err(RecollectError::FilePathError(e)),
    }
}

/// A write of the whole store to its data file.
#[derive(Debug)]
pub struct PendingWrite {
    /// The data file.
    pub file_path: PathBuf,
    /// The JSON text to write.
    pub contents: Vec<u8>,
}

/// The store, and the data file it is kept in once it has been given one.
#[derive(Debug)]
pub struct Recollections {
    file_path: Option<PathBuf>,
    data: RecollectionDb,
}

impl Recollections {
    #[verifier::type_invariant]
    spec fn empty_until_initialised(self) -> bool {
        self.file_path is None ==> self.data@ == Map::<Seq<char>, Seq<char>>::empty()
    }

    /// The data file, once there is one.
    pub closed spec fn data_file(self) -> Option<Seq<u8>> {
        match self.file_path {
            Some(p) => Some(p@),
            None => None,
        }
    }

    /// The pairs held, in the order they are kept.
    pub closed spec fn members(self) -> Seq<(Seq<char>, Seq<char>)> {
        self.data.members()
    }
}

impl View for Recollections {
    type V = Map<Seq<char>, Seq<char>>;

    closed spec fn view(&self) -> Map<Seq<char>, Seq<char>> {
        self.data@
    }
}

impl Recollections {
    /// A store with no data file, holding nothing.
    pub fn new() -> (r: Recollections)
        ensures
            r.data_file() is None,
            r@ == Map::<Seq<char>, Seq<char>>::empty(),
    {
        Recollections { file_path: None, data: RecollectionDb::new() }
    }

    /// The data file, once there is one.
    pub fn file_path(&self) -> (r: Option<&PathBuf>)
        ensures
            opt_path(r) == self.data_file(),
    {
        match &self.file_path {
            Some(p) => Some(p),
            None => None,
        }
    }

    /// Takes on the data file `file` and the store that `parsed`, the
    /// outcome of reading the file's JSON, holds; a failed reading leaves
    /// everything as it was.
    pub fn load_parsed(
        &mut self,
        file: DataFile,
        parsed: Result<Vec<(String, String)>, serde_json::Error>,
    ) -> (r: Result<(), RecollectError>)
        ensures
            exists|home: Option<Seq<u8>>|
                reportable_home(home) && #[trigger] spec_absolute_path_buf(file.given(), file.cur(), home) == Ok::<
                    Seq<u8>,
                    PathExtError,
                >(file@),
            match parsed {
                Ok(v) => r is Ok && final(self).data_file() == Some(file@) && final(self)@
                    == entries_map(entries_view(v@)),
                Err(e) => r matches Err(RecollectError::SerdeError(f)) && f == e
                    && final(self).data_file() == old(self).data_file() && final(self)@ == old(self)@,
            },
    {
        proof {
            use_type_invariant(&file);
            let home = choose|home: Option<Seq<u8>>|
                reportable_home(home) && spec_absolute_path_buf(file.given@, file.cur@, home) == Ok::<
                    Seq<u8>,
                    PathExtError,
                >(file.path@);
            assert(spec_absolute_path_buf(file.given(), file.cur(), home) == Ok::<
                Seq<u8>,
                PathExtError,
            >(file@));
        }
        match parsed {
            Ok(v) => {
                let data = RecollectionDb::from_members(v);
                *self = Recollections { file_path: Some(file.path), data };
                Ok(())
            },
            Err(e) => Err(RecollectError::SerdeError(e)),
        }
    }

    /// Takes on the data file `file`, whose bytes are `contents`, and the
    /// store of named strings that the file's JSON object holds.
    pub fn set_data_file_path(&mut self, file: DataFile, contents: &[u8]) -> (r: Result<
        (),
        RecollectError,
    >)
        ensures
            exists|home: Option<Seq<u8>>|
                reportable_home(home) && #[trigger] spec_absolute_path_buf(file.given(), file.cur(), home) == Ok::<
                    Seq<u8>,
                    PathExtError,
                >(file@),
            match json_string_members(contents@) {
                Some(m) => r is Ok && final(self).data_file() == Some(file@) && final(self)@
                    == entries_map(m),
                None => r matches Err(e) && e is SerdeError && final(self).data_file() == old(self).data_file() && final(self)@ == old(self)@,
            },
    {
        let parsed = parse_string_members(contents);
        self.load_parsed(file, parsed)
    }

    /// Remembers `value` under `name` and hands back the write that keeps
    /// the data file up to date; ignored while there is no data file.
    pub fn remember(&mut self, name: &str, value: &str) -> (r: Result<
        Option<PendingWrite>,
        RecollectError,
    >)
        ensures
            final(self).data_file() == old(self).data_file(),
            final(self)@ == remembered(old(self).data_file(), old(self)@, name@, value@),
            old(self).data_file() is None ==> r matches Ok(None),
            old(self).data_file() matches Some(f) ==> (r matches Ok(Some(w)) && w.file_path@ == f
                && w.contents@ == json_object_text(final(self).members()) && loaded(w.contents@)
                == Some(final(self)@)),
    {
        proof {
            use_type_invariant(&*self);
        }
        match &self.file_path {
            None => Ok(None),
            Some(f) => {
                let file_path = f.to_path_buf();
                let mut data = RecollectionDb::new();
                std::mem::swap(&mut data, &mut self.data);
                data.insert(name.to_owned(), value.to_owned());
                let text = data.to_json();
                self.data = data;
                match text {
                    Ok(contents) => Ok(Some(PendingWrite { file_path, contents })),
                    Err(e) => Err(RecollectError::SerdeError(e)),
                }
            },
        }
    }

    /// The string remembered under `name`, if any.
    pub fn recall(&self, name: &str) -> (r: Option<String>)
        ensures
            r matches Some(v) ==> self@.contains_key(name@) && v@ == self@[name@],
            r is None ==> !self@.contains_key(name@),
            opt_text(r) == recalled(self@, name@),
            self.data_file() is None ==> r is None,
    {
        proof {
            use_type_invariant(self);
        }
        self.data.get(name)
    }

    /// The string remembered under `name`, or `default` when there is none.
    pub fn recall_or_else(&self, name: &str, default: &str) -> (r: String)
        ensures
            r@ == if self@.contains_key(name@) {
                self@[name@]
            } else {
                default@
            },
            self.data_file() is None ==> r@ == default@,
    {
        match self.recall(name) {
            Some(string) => string,
            None => default.to_owned(),
        }
    }
}

impl Default for Recollections {
    /// A store with no data file, holding nothing.
    fn default() -> (r: Recollections)
        ensures
            r.data_file() is None,
            r@ == Map::<Seq<char>, Seq<char>>::empty(),
    {
        Recollections::new()
    }
}

/// Gives `recollections` the data file `file`, whose bytes are `contents`,
/// and the store that the file holds.
pub fn init(recollections: &mut Recollections, file: DataFile, contents: &[u8]) -> (r: Result<
    (),
    RecollectError,
>)
    ensures
        exists|home: Option<Seq<u8>>|
            reportable_home(home) && #[trigger] spec_absolute_path_buf(file.given(), file.cur(), home) == Ok::<
                Seq<u8>,
                PathExtError,
            >(file@),
        match json_string_members(contents@) {
            Some(m) => r is Ok && final(recollections).data_file() == Some(file@) && final(recollections)@ == entries_map(m),
            None => r matches Err(e) && e is SerdeError && final(recollections).data_file() == old(recollections).data_file() && final(recollections)@ == old(recollections)@,
        },
{
    recollections.set_data_file_path(file, contents)
}

/// Remembers `value` under `name` in `recollections`; see
/// [`Recollections::remember`].
pub fn remember(recollections: &mut Recollections, name: &str, value: &str) -> (r: Result<
    Option<PendingWrite>,
    RecollectError,
>)
    ensures
        final(recollections).data_file() == old(recollections).data_file(),
        final(recollections)@ == remembered(
            old(recollections).data_file(),
            old(recollections)@,
            name@,
            value@,
        ),
        old(recollections).data_file() is None ==> r matches Ok(None),
        old(recollections).data_file() matches Some(f) ==> (r matches Ok(Some(w)) && w.file_path@
            == f && w.contents@ == json_object_text(final(recollections).members()) && loaded(
            w.contents@,
        ) == Some(final(recollections)@)),
{
    recollections.remember(name, value)
}

/// The string remembered under `name` in `recollections`, if any.
pub fn recall(recollections: &Recollections, name: &str) -> (r: Option<String>)
    ensures
        r matches Some(v) ==> recollections@.contains_key(name@) && v@ == recollections@[name@],
        r is None ==> !recollections@.contains_key(name@),
        opt_text(r) == recalled(recollections@, name@),
        recollections.data_file() is None ==> r is None,
{
    recollections.recall(name)
}

/// The string remembered under `name` in `recollections`, or `default`.
pub fn recall_or_else(recollections: &Recollections, name: &str, default: &str) -> (r: String)
    ensures
        r@ == if recollections@.contains_key(name@) {
            recollections@[name@]
        } else {
            default@
        },
        recollections.data_file() is None ==> r@ == default@,
{
    recollections.recall_or_else(name, default)
}

} // verus!
