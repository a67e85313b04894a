//! The journal: the open eras in the order of their indices, oldest first.
//!
//! New eras are appended at the tail, lookups go from the newest era to the
//! oldest, and the oldest eras are handed out when they are to be folded
//! into the main store.

use crate::cache::last_operation;
use crate::dir::{
    era_index, era_index_of, era_indices, era_name, era_path, find_missing_index,
    lemma_era_index_of_sound, lemma_no_missing_index, missing_index, next_era_filename,
    next_index_of, path_in, MAX_ERA_INDEX,
};
use crate::era::{era_of, stored_payload, EraView, JournalEra, JournalOperation};
use crate::error::{ErrorKind, ErrorView};
use crate::transaction::{OperationView, Transaction};
use std::collections::VecDeque;
use vstd::prelude::*;

verus! {

/// A journal as a mathematical value.
pub struct JournalView {
    /// The directory of the journal.
    pub dir: Seq<char>,
    /// The open eras, oldest first.
    pub eras: Seq<EraView>,
    /// The index of the era that is created next.
    pub next_era_index: u64,
}

/// The views of a sequence of eras.
pub open spec fn era_views(eras: Seq<JournalEra>) -> Seq<EraView> {
    Seq::new(eras.len(), |i: int| eras[i]@)
}

/// The value that a journal with these eras, oldest first, holds for `key`:
/// what the newest era that mentions the key says of it.
pub open spec fn journal_value(eras: Seq<EraView>, key: Seq<u8>) -> Option<Seq<u8>>
    decreases eras.len(),
{
    if eras.len() == 0 {
        None
    } else {
        match last_operation(eras.last().operations, key) {
            Some(OperationView::Insert(_, value)) => Some(value),
            Some(OperationView::Delete(_)) => None,
            None => journal_value(eras.drop_last(), key),
        }
    }
}

/// Era files as they are handed to `Journal::open`, with their names and
/// contents as sequences.
pub open spec fn file_views(files: Seq<(String, Vec<u8>)>) -> Seq<(Seq<char>, Seq<u8>)> {
    Seq::new(files.len(), |i: int| (files[i].0@, files[i].1@))
}

/// The names of era files.
pub open spec fn file_names(files: Seq<(Seq<char>, Seq<u8>)>) -> Seq<Seq<char>> {
    Seq::new(files.len(), |i: int| files[i].0)
}

/// The first of `names` that is no era's file name.
pub open spec fn first_unnamed(names: Seq<Seq<char>>) -> Option<Seq<char>>
    decreases names.len(),
{
    if names.len() == 0 {
        None
    } else {
        match first_unnamed(names.drop_last()) {
            Some(name) => Some(name),
            None => if era_index_of(names.last()) is None {
                Some(names.last())
            } else {
                None
            },
        }
    }
}

/// The eras of the files of the journal in `dir`, opened in turn; the first
/// corruption that is met where one is met.
pub open spec fn eras_of(dir: Seq<char>, files: Seq<(Seq<char>, Seq<u8>)>) -> Result<
    Seq<EraView>,
    ErrorView,
>
    decreases files.len(),
{
    if files.len() == 0 {
        Ok(Seq::empty())
    } else {
        match eras_of(dir, files.drop_last()) {
            Ok(eras) => match era_of(path_in(dir, files.last().0), files.last().1) {
                Ok(era) => Ok(eras.push(era)),
                Err(error) => Err(error),
            },
            Err(error) => Err(error),
        }
    }
}

/// The journal that the era files of `dir` make, given in the order of
/// their indices: every name must be an era's, the indices must leave none
/// out, and every era must open.
pub open spec fn journal_of(dir: Seq<char>, files: Seq<(Seq<char>, Seq<u8>)>) -> Result<
    JournalView,
    ErrorView,
> {
    let names = file_names(files);
    match first_unnamed(names) {
        Some(name) => Err(ErrorView::InvalidEraName(name)),
        None => match missing_index(era_indices(names)) {
            Some(index) => Err(ErrorView::JournalEraMissing(index)),
            None => match eras_of(dir, files) {
                Ok(eras) => match next_index_of(names) {
                    Ok(next_era_index) => Ok(JournalView { dir, eras, next_era_index }),
                    Err(error) => Err(error),
                },
                Err(error) => Err(error),
            },
        },
    }
}

/// Once a name in a front part of `names` is found to be no era's, it is
/// the first such of all of them.
proof fn lemma_first_unnamed_extends(names: Seq<Seq<char>>, front: int)
    requires
        0 <= front <= names.len(),
        first_unnamed(names.take(front)) is Some,
    ensures
        first_unnamed(names) == first_unnamed(names.take(front)),
    decreases names.len() - front,
{
    if front < names.len() {
        assert(names.take(front + 1).drop_last() =~= names.take(front));
        lemma_first_unnamed_extends(names, front + 1);
    } else {
        assert(names.take(front) =~= names);
    }
}

/// Once an era among a front part of `files` is found corrupted, that is
/// what opening all of them comes to.
proof fn lemma_eras_of_extends(dir: Seq<char>, files: Seq<(Seq<char>, Seq<u8>)>, front: int)
    requires
        0 <= front <= files.len(),
        eras_of(dir, files.take(front)) is Err,
    ensures
        eras_of(dir, files) == eras_of(dir, files.take(front)),
    decreases files.len() - front,
{
    if front < files.len() {
        assert(files.take(front + 1).drop_last() =~= files.take(front));
        lemma_eras_of_extends(dir, files, front + 1);
    } else {
        assert(files.take(front) =~= files);
    }
}

/// The eras of the journal are numbered without gap up to the next index:
/// each era's file is the one named by its index, the newest era has the
/// index before the next, and each older one the index before its
/// successor's.
pub open spec fn well_numbered(journal: JournalView) -> bool {
    &&& journal.eras.len() <= journal.next_era_index
    &&& forall|i: int|
        0 <= i < journal.eras.len() ==> (#[trigger] journal.eras[i]).file == path_in(
            journal.dir,
            era_name((journal.next_era_index - journal.eras.len() + i) as u64),
        )
}

/// Where every name is an era's, each has its index.
proof fn lemma_era_indices_of_all(names: Seq<Seq<char>>)
    requires
        first_unnamed(names) is None,
    ensures
        era_indices(names).len() == names.len(),
        forall|i: int|
            0 <= i < names.len() ==> era_index_of(#[trigger] names[i]) == Some(
                era_indices(names)[i],
            ),
    decreases names.len(),
{
    if names.len() > 0 {
        let front = names.drop_last();
        lemma_era_indices_of_all(front);
        assert forall|i: int| 0 <= i < names.len() implies era_index_of(#[trigger] names[i])
            == Some(era_indices(names)[i]) by {
            if i < front.len() {
                assert(front[i] == names[i]);
                assert(era_indices(names)[i] == era_indices(front)[i]);
            } else {
                assert(names[i] == names.last());
            }
        }
    }
}

/// Eras that open are as many as their files, each with its file's path.
proof fn lemma_eras_of_files(dir: Seq<char>, files: Seq<(Seq<char>, Seq<u8>)>)
    requires
        eras_of(dir, files) is Ok,
    ensures
        eras_of(dir, files) matches Ok(eras) && eras.len() == files.len() && forall|i: int|
            0 <= i < files.len() ==> (#[trigger] eras[i]).file == path_in(dir, files[i].0),
    decreases files.len(),
{
    if files.len() > 0 {
        let front = files.drop_last();
        lemma_eras_of_files(dir, front);
        match eras_of(dir, files) {
            Ok(eras) => {
                assert forall|i: int| 0 <= i < files.len() implies (#[trigger] eras[i]).file
                    == path_in(dir, files[i].0) by {
                    if i < front.len() {
                        assert(front[i] == files[i]);
                    } else {
                        assert(files[i] == files.last());
                    }
                }
            },
            Err(_) => {},
        }
    }
}

/// A journal that opens is numbered without gap: its next index is one past
/// the index of its newest era, or 0 where it has none.
pub proof fn lemma_opened_journal_is_numbered(dir: Seq<char>, files: Seq<(Seq<char>, Seq<u8>)>)
    requires
        journal_of(dir, files) is Ok,
    ensures
        journal_of(dir, files) matches Ok(journal) && well_numbered(journal),
{
    let names = file_names(files);
    let indices = era_indices(names);
    lemma_era_indices_of_all(names);
    lemma_eras_of_files(dir, files);
    match journal_of(dir, files) {
        Ok(journal) => {
            if files.len() > 0 {
                let count = files.len() as int;
                assert(names.last() == names[count - 1]);
                lemma_era_index_of_sound(names[count - 1]);
                lemma_no_missing_index(indices, count - 1);
                assert(journal.next_era_index == indices[0] + count);
                assert forall|i: int| 0 <= i < journal.eras.len() implies (
                #[trigger] journal.eras[i]).file == path_in(
                    journal.dir,
                    era_name((journal.next_era_index - journal.eras.len() + i) as u64),
                ) by {
                    lemma_no_missing_index(indices, i);
                    lemma_era_index_of_sound(names[i]);
                    assert(names[i] == files[i].0);
                }
            }
        },
        Err(_) => {},
    }
}

/// The ordered collection of the open eras of one directory.
#[derive(Debug)]
pub struct Journal {
    dir: String,
    eras: VecDeque<JournalEra>,
    next_era_index: u64,
}

impl View for Journal {
    type V = JournalView;

    closed spec fn view(&self) -> JournalView {
        JournalView {
            dir: self.dir@,
            eras: era_views(self.eras@),
            next_era_index: self.next_era_index,
        }
    }
}

impl Journal {
    #[verifier::type_invariant]
    spec fn numbered(&self) -> bool {
        well_numbered(self@)
    }

    /// The open eras themselves, oldest first.
    pub closed spec fn eras(&self) -> Seq<JournalEra> {
        self.eras@
    }

    /// The journal's view shows its eras.
    pub proof fn lemma_view_of_eras(&self)
        ensures
            self@.eras == era_views(self.eras()),
    {
    }

    /// Opens the journal of the directory `jdir` from its era files, given
    /// with name and content in the order of their indices. Every name is
    /// checked first, then that no index is left out, then each era is
    /// opened in turn; the first failure is returned and nothing is opened
    /// in part.
    pub fn open(jdir: String, files: Vec<(String, Vec<u8>)>) -> (opened: Result<Journal, ErrorKind>)
        ensures
            match journal_of(jdir@, file_views(files@)) {
                Ok(journal) => opened matches Ok(j) && j@ == journal && well_numbered(j@),
                Err(error) => opened matches Err(e) && e@ == error,
            },
    {
        let ghost all = file_views(files@);
        let ghost names = file_names(all);
        let count: usize = files.len();
        let mut indices: Vec<u64> = Vec::new();
        let mut k: usize = 0;
        while k < count
            invariant
                k <= count,
                count == files@.len(),
                all == file_views(files@),
                names == file_names(all),
                first_unnamed(names.take(k as int)) is None,
                indices@ == era_indices(names.take(k as int)),
                indices@.len() == k,
                forall|i: int| 0 <= i < k ==> era_index_of(#[trigger] names[i]) == Some(indices@[i]),
                forall|i: int| 0 <= i < indices@.len() ==> #[trigger] indices@[i] <= MAX_ERA_INDEX,
            decreases count - k,
        {
            let name = files[k].0.as_str();
            let ghost longer = names.take(k + 1);
            assert(longer.drop_last() =~= names.take(k as int));
            assert(longer.last() == name@);
            match era_index(name) {
                Ok(index) => {
                    proof {
                        lemma_era_index_of_sound(name@);
                    }
                    indices.push(index);
                },
                Err(error) => {
                    proof {
                        assert(first_unnamed(longer) == Some(name@));
                        lemma_first_unnamed_extends(names, k + 1);
                    }
                    return Err(error);
                },
            }
            k += 1;
        }
        assert(names.take(count as int) =~= names);
        match find_missing_index(&indices) {
            Some(index) => {
                return Err(ErrorKind::JournalEraMissing(index));
            },
            None => {},
        }
        let next_era_index: u64 = if count == 0 {
            0
        } else {
            indices[count - 1] + 1
        };
        assert(next_index_of(names) == Ok::<u64, ErrorView>(next_era_index));
        let mut eras: VecDeque<JournalEra> = VecDeque::new();
        assert(all.take(0) =~= Seq::empty());
        assert(era_views(eras@) =~= Seq::empty());
        for file in it: files
            invariant
                it.seq() == files@,
                all == file_views(files@),
                names == file_names(all),
                first_unnamed(names) is None,
                missing_index(era_indices(names)) is None,
                next_index_of(names) == Ok::<u64, ErrorView>(next_era_index),
                eras_of(jdir@, all.take(it.index() as int)) == Ok::<Seq<EraView>, ErrorView>(
                    era_views(eras@),
                ),
        {
            let ghost i = it.index() as int;
            let ghost longer = all.take(i + 1);
            assert(longer.drop_last() =~= all.take(i));
            assert(longer.last() == all[i]);
            let (name, content) = file;
            let ghost before = eras@;
            let path = era_path(jdir.as_str(), name.as_str());
            match JournalEra::open(path, content) {
                Ok(era) => {
                    eras.push_back(era);
                    assert(era_views(eras@) =~= era_views(before).push(era@));
                },
                Err(error) => {
                    proof {
                        lemma_eras_of_extends(jdir@, all, i + 1);
                    }
                    return Err(error);
                },
            }
        }
        proof {
            assert(all.take(all.len() as int) =~= all);
            lemma_opened_journal_is_numbered(jdir@, all);
        }
        Ok(Journal { dir: jdir, eras, next_era_index })
    }

    /// Makes ready the next era, which is to hold `transaction`: returns the
    /// path of its file, named by the next index, and the content to write
    /// there. The journal stays as it is; the index is taken only when the
    /// era is pushed. Fails once the indices are used up.
    pub fn prepare(&self, transaction: &Transaction) -> (prepared: Result<
        (String, Vec<u8>),
        ErrorKind,
    >)
        ensures
            match prepared {
                Ok((path, content)) => {
                    &&& self@.next_era_index <= MAX_ERA_INDEX
                    &&& path@ == path_in(self@.dir, era_name(self@.next_era_index))
                    &&& stored_payload(content@) == transaction.raw_bytes()
                    &&& era_of(path@, content@) == Ok::<EraView, ErrorView>(
                        (EraView { file: path@, operations: transaction@ }),
                    )
                },
                Err(error) => {
                    &&& self@.next_era_index > MAX_ERA_INDEX
                    &&& error@ == ErrorView::InvalidEraName(
                        path_in(self@.dir, era_name(self@.next_era_index)),
                    )
                },
            },
    {
        let path = next_era_filename(self.dir.as_str(), self.next_era_index);
        if self.next_era_index > MAX_ERA_INDEX {
            return Err(ErrorKind::InvalidEraName(path));
        }
        let content = JournalEra::create(transaction);
        Ok((path, content))
    }

    /// Opens the next era from the content of its file, appends it at the
    /// tail and takes the next index for it. The file is the one that
    /// `prepare` names. Where the indices are used up or the content is
    /// corrupted, the journal stays as it is and the index is not taken: the
    /// next era to be made gets the same one.
    pub fn push(&mut self, content: Vec<u8>) -> (pushed: Result<(), ErrorKind>)
        ensures
            well_numbered(final(self)@),
            if old(self)@.next_era_index > MAX_ERA_INDEX {
                &&& pushed matches Err(e)
                &&& e@ == ErrorView::InvalidEraName(
                    path_in(old(self)@.dir, era_name(old(self)@.next_era_index)),
                )
                &&& final(self)@ == old(self)@
                &&& final(self).eras() == old(self).eras()
            } else {
                match era_of(
                    path_in(old(self)@.dir, era_name(old(self)@.next_era_index)),
                    content@,
                ) {
                    Ok(era) => {
                        &&& pushed is Ok
                        &&& final(self)@.dir == old(self)@.dir
                        &&& final(self)@.next_era_index == old(self)@.next_era_index + 1
                        &&& final(self)@.eras == old(self)@.eras.push(era)
                        &&& final(self).eras().len() == old(self).eras().len() + 1
                        &&& final(self).eras().drop_last() == old(self).eras()
                    },
                    Err(error) => {
                        &&& pushed matches Err(e)
                        &&& e@ == error
                        &&& final(self)@ == old(self)@
                        &&& final(self).eras() == old(self).eras()
                    },
                }
            },
    {
        proof {
            use_type_invariant(&*self);
        }
        let path = next_era_filename(self.dir.as_str(), self.next_era_index);
        if self.next_era_index > MAX_ERA_INDEX {
            return Err(ErrorKind::InvalidEraName(path));
        }
        match JournalEra::open(path, content) {
            Ok(era) => {
                let mut eras: VecDeque<JournalEra> = VecDeque::new();
                core::mem::swap(&mut self.eras, &mut eras);
                assert(era_views(self.eras@) =~= Seq::<EraView>::empty());
                self.next_era_index += 1;
                eras.push_back(era);
                proof {
                    let before = era_views(old(self).eras@);
                    let after = era_views(eras@);
                    assert(after =~= before.push(era@));
                    assert(eras@.drop_last() =~= old(self).eras@);
                    assert forall|i: int| 0 <= i < after.len() implies (#[trigger] after[i]).file
                        == path_in(
                        self.dir@,
                        era_name((self.next_era_index - after.len() + i) as u64),
                    ) by {
                        if i < before.len() {
                            assert(after[i] == before[i]);
                        }
                    }
                }
                core::mem::swap(&mut self.eras, &mut eras);
                Ok(())
            },
            Err(error) => Err(error),
        }
    }

    /// Takes the `elems` oldest eras out of the journal and returns them,
    /// oldest first. Their files stay; to remove one is the caller's part,
    /// once what it holds is safe elsewhere.
    pub fn drain_front(&mut self, elems: usize) -> (drained: Vec<JournalEra>)
        requires
            elems <= old(self).eras().len(),
        ensures
            drained@ == old(self).eras().take(elems as int),
            final(self).eras() == old(self).eras().skip(elems as int),
            era_views(drained@) == old(self)@.eras.take(elems as int),
            final(self)@.eras == old(self)@.eras.skip(elems as int),
            final(self)@.dir == old(self)@.dir,
            final(self)@.next_era_index == old(self)@.next_era_index,
            well_numbered(final(self)@),
    {
        proof {
            use_type_invariant(&*self);
        }
        let mut eras: VecDeque<JournalEra> = VecDeque::new();
        core::mem::swap(&mut self.eras, &mut eras);
        assert(era_views(self.eras@) =~= Seq::<EraView>::empty());
        let mut drained: Vec<JournalEra> = Vec::new();
        let mut i: usize = 0;
        while i < elems
            invariant
                i <= elems <= old(self).eras@.len(),
                drained@ == old(self).eras@.take(i as int),
                eras@ == old(self).eras@.skip(i as int),
            decreases elems - i,
        {
            match eras.pop_front() {
                Some(era) => {
                    drained.push(era);
                },
                None => {},
            }
            assert(drained@ =~= old(self).eras@.take(i + 1));
            assert(eras@ =~= old(self).eras@.skip(i + 1));
            i += 1;
        }
        proof {
            let before = era_views(old(self).eras@);
            let after = era_views(eras@);
            assert(era_views(drained@) =~= before.take(elems as int));
            assert(after =~= before.skip(elems as int));
            assert forall|j: int| 0 <= j < after.len() implies (#[trigger] after[j]).file
                == path_in(self.dir@, era_name((self.next_era_index - after.len() + j) as u64)) by {
                assert(after[j] == before[j + elems]);
            }
        }
        core::mem::swap(&mut self.eras, &mut eras);
        drained
    }

    /// The number of open eras.
    pub fn len(&self) -> (count: usize)
        ensures
            count == self@.eras.len(),
            count == self.eras().len(),
            well_numbered(self@),
    {
        proof {
            use_type_invariant(self);
        }
        self.eras.len()
    }

    /// The index of the era that is created next.
    pub fn next_era_index(&self) -> (index: u64)
        ensures
            index == self@.next_era_index,
    {
        self.next_era_index
    }

    /// The directory of the journal.
    pub fn dir(&self) -> (dir: &str)
        ensures
            dir@ == self@.dir,
    {
        self.dir.as_str()
    }

    /// The value that the journal holds for `key`. The eras are asked from
    /// the newest to the oldest; the first that mentions the key decides:
    /// its value where it inserts the key, nothing where it deletes it.
    pub fn get<'a>(&'a self, key: &[u8]) -> (value: Option<&'a [u8]>)
        ensures
            match journal_value(self@.eras, key@) {
                Some(bytes) => value matches Some(found) && found@ == bytes,
                None => value is None,
            },
    {
        let ghost eras = self@.eras;
        let mut i: usize = self.eras.len();
        assert(eras.take(i as int) =~= eras);
        while i > 0
            invariant
                i <= self.eras@.len(),
                eras == era_views(self.eras@),
                journal_value(eras, key@) == journal_value(eras.take(i as int), key@),
            decreases i,
        {
            i -= 1;
            let ghost front = eras.take(i + 1);
            assert(front.drop_last() =~= eras.take(i as int));
            assert(front.last() == self.eras@[i as int]@);
            match self.eras[i].get(key) {
                Some(JournalOperation::Insert(value)) => {
                    return Some(value);
                },
                Some(JournalOperation::Delete) => {
                    return None;
                },
                None => {},
            }
        }
        None
    }
}

/// Whether the era mentions the key.
pub open spec fn mentions(era: EraView, key: Seq<u8>) -> bool {
    last_operation(era.operations, key) is Some
}

/// What an era that mentions the key says of it: its value, or nothing
/// where the era deletes it.
pub open spec fn value_in(era: EraView, key: Seq<u8>) -> Option<Seq<u8>> {
    match last_operation(era.operations, key) {
        Some(OperationView::Insert(_, value)) => Some(value),
        _ => None,
    }
}

/// The newest era that mentions a key decides what the journal holds for
/// it, whatever older eras say: a later delete hides an earlier insert, and
/// a later insert replaces an earlier value.
pub proof fn lemma_newest_mention_decides(eras: Seq<EraView>, key: Seq<u8>, at: int)
    requires
        0 <= at < eras.len(),
        mentions(eras[at], key),
        forall|i: int| at < i < eras.len() ==> !mentions(#[trigger] eras[i], key),
    ensures
        journal_value(eras, key) == value_in(eras[at], key),
    decreases eras.len(),
{
    assert(eras.last() == eras[eras.len() - 1]);
    if at < eras.len() - 1 {
        let older = eras.drop_last();
        assert(older[at] == eras[at]);
        assert forall|i: int| at < i < older.len() implies !mentions(#[trigger] older[i], key) by {
            assert(older[i] == eras[i]);
        }
        lemma_newest_mention_decides(older, key, at);
    }
}

/// A journal holds nothing for a key that none of its eras mentions.
pub proof fn lemma_no_mention_no_value(eras: Seq<EraView>, key: Seq<u8>)
    requires
        forall|i: int| 0 <= i < eras.len() ==> !mentions(#[trigger] eras[i], key),
    ensures
        journal_value(eras, key) is None,
    decreases eras.len(),
{
    if eras.len() > 0 {
        assert(eras.last() == eras[eras.len() - 1]);
        let older = eras.drop_last();
        assert forall|i: int| 0 <= i < older.len() implies !mentions(#[trigger] older[i], key) by {
            assert(older[i] == eras[i]);
        }
        lemma_no_mention_no_value(older, key);
    }
}

/// Taking the `count` oldest eras out of a journal leaves every key that a
/// remaining era mentions with the value it had, and leaves nothing for a
/// key that only the eras taken out mention.
pub proof fn lemma_drain_front_keeps_newer(eras: Seq<EraView>, count: int, key: Seq<u8>)
    requires
        0 <= count <= eras.len(),
    ensures
        (exists|i: int| count <= i < eras.len() && mentions(#[trigger] eras[i], key))
            ==> journal_value(eras.skip(count), key) == journal_value(eras, key),
        (forall|i: int| count <= i < eras.len() ==> !mentions(#[trigger] eras[i], key))
            ==> journal_value(eras.skip(count), key) is None,
    decreases eras.len(),
{
    let left = eras.skip(count);
    if count < eras.len() {
        assert(eras.last() == eras[eras.len() - 1]);
        assert(left.last() == eras.last());
        assert(left.drop_last() =~= eras.drop_last().skip(count));
        let older = eras.drop_last();
        lemma_drain_front_keeps_newer(older, count, key);
        if !mentions(eras.last(), key) {
            if exists|i: int| count <= i < eras.len() && mentions(#[trigger] eras[i], key) {
                let i = choose|i: int| count <= i < eras.len() && mentions(#[trigger] eras[i], key);
                assert(older[i] == eras[i]);
            }
            if forall|i: int| count <= i < eras.len() ==> !mentions(#[trigger] eras[i], key) {
                assert forall|i: int| count <= i < older.len() implies !mentions(
                    #[trigger] older[i],
                    key,
                ) by {
                    assert(older[i] == eras[i]);
                }
            }
        }
    }
}

} // verus!
