//! The replacement of a file by way of a temporary one beside it.
//!
//! The steps are decided here and carried out by the caller: it asks for the
//! next step, does it, and says how it went.
use vstd::prelude::*;
use vstd::string::*;
use crate::bytes::{append, BACKSLASH, COLON, DOT, SLASH};
use crate::decimal::{decimal, law_decimal_is_unique, lemma_decimal_digits, push_decimal};
use crate::native_path::{
    file_name_span, law_an_extended_name_stays_in_its_directory, parent_of,
};

verus! {

/// What stands between a path and the numbers in the name of its temporary
/// file.
pub const TEMPORARY_MARK: &'static str = ".cygshim.";

/// What a temporary name adds to a path: the number of the process and that of
/// the attempt.
pub open spec fn temporary_suffix(process: u32, attempt: u32) -> Seq<u8> {
    TEMPORARY_MARK.spec_bytes() + decimal(process as nat) + seq![DOT] + decimal(attempt as nat)
}

/// The path of a temporary file.
pub open spec fn temporary_name(path: Seq<u8>, process: u32, attempt: u32) -> Seq<u8> {
    path + temporary_suffix(process, attempt)
}

/// The path of a temporary file.
pub fn temporary_path(path: &[u8], process: u32, attempt: u32) -> (r: Vec<u8>)
    ensures
        r@ == temporary_name(path@, process, attempt),
{
    let mut r: Vec<u8> = vstd::slice::slice_to_vec(path);
    append(&mut r, TEMPORARY_MARK.as_bytes());
    push_decimal(&mut r, process as u64);
    r.push(DOT);
    push_decimal(&mut r, attempt as u64);
    assert(r@ =~= temporary_name(path@, process, attempt));
    r
}

/// How far a replacement has come.
#[derive(Clone, Copy, PartialEq, Eq, Structural, Debug)]
pub enum Stage {
    /// The permissions of the file are to be read.
    ReadPermissions,
    /// The temporary file is to be created; it must not exist.
    Create,
    /// The contents are to be written to it.
    Write,
    /// It is to get the permissions of the file that it replaces.
    SetPermissions,
    /// It is to be moved to the place of that file.
    Move,
    /// It is to be removed, since something failed.
    Remove,
    /// The file is replaced.
    Done,
    /// The file is as it was.
    Failed,
}

/// How a step went.
pub enum Outcome {
    Succeeded,
    /// There is a file of the name already.
    AlreadyExists(std::io::Error),
    Failed(std::io::Error),
}

/// What is next after a step.
pub open spec fn next_stage(stage: Stage, outcome: Outcome) -> Stage {
    match stage {
        Stage::ReadPermissions => if outcome is Succeeded {
            Stage::Create
        } else {
            Stage::Failed
        },
        Stage::Create => match outcome {
            Outcome::Succeeded => Stage::Write,
            Outcome::AlreadyExists(_) => Stage::Create,
            Outcome::Failed(_) => Stage::Failed,
        },
        Stage::Write => if outcome is Succeeded {
            Stage::SetPermissions
        } else {
            Stage::Remove
        },
        Stage::SetPermissions => if outcome is Succeeded {
            Stage::Move
        } else {
            Stage::Remove
        },
        Stage::Move => if outcome is Succeeded {
            Stage::Done
        } else {
            Stage::Remove
        },
        Stage::Remove => Stage::Failed,
        Stage::Done => Stage::Done,
        Stage::Failed => Stage::Failed,
    }
}

/// The error of a step, if it is one that the replacement fails with: a name
/// that is taken is no error where another can be tried.
pub open spec fn failure(stage: Stage, outcome: Outcome) -> Option<std::io::Error> {
    match outcome {
        Outcome::Succeeded => None,
        Outcome::AlreadyExists(error) => if stage == Stage::Create {
            None
        } else {
            Some(error)
        },
        Outcome::Failed(error) => Some(error),
    }
}

/// A replacement under way.
pub struct Replacement {
    pub path: Vec<u8>,
    pub process: u32,
    pub attempt: u32,
    pub stage: Stage,
    /// The first error that there was.
    pub error: Option<std::io::Error>,
}

impl Replacement {
    /// The temporary file that is used now.
    pub fn temporary(&self) -> (r: Vec<u8>)
        ensures
            r@ == temporary_name(self.path@, self.process, self.attempt),
    {
        temporary_path(self.path.as_slice(), self.process, self.attempt)
    }

    /// Whether there is no other name left to try.
    pub open spec fn spec_exhausted(&self) -> bool {
        self.stage == Stage::Create && self.attempt == u32::MAX
    }

    /// Whether there is no other name left to try.
    #[verifier::when_used_as_spec(spec_exhausted)]
    pub fn exhausted(&self) -> (r: bool)
        ensures
            r == self.spec_exhausted(),
    {
        self.stage == Stage::Create && self.attempt == u32::MAX
    }

    /// Takes in how the step that was to be done went. A name that is taken
    /// calls for another one; an error after the temporary file was created
    /// calls for its removal; the error that is kept is the first one.
    pub fn advance(&mut self, outcome: Outcome)
        requires
            outcome is AlreadyExists ==> !old(self).exhausted(),
        ensures
            final(self).path == old(self).path,
            final(self).process == old(self).process,
            final(self).stage == next_stage(old(self).stage, outcome),
            final(self).attempt == if old(self).stage == Stage::Create && outcome is AlreadyExists {
                old(self).attempt + 1
            } else {
                old(self).attempt as int
            },
            final(self).error == if old(self).error is Some {
                old(self).error
            } else {
                failure(old(self).stage, outcome)
            },
    {
        let stage: Stage = self.stage;
        let (succeeded, taken, error): (bool, bool, Option<std::io::Error>) = match outcome {
            Outcome::Succeeded => (true, false, None),
            Outcome::AlreadyExists(error) => if stage == Stage::Create {
                (false, true, None)
            } else {
                (false, false, Some(error))
            },
            Outcome::Failed(error) => (false, false, Some(error)),
        };
        self.stage = match stage {
            Stage::ReadPermissions => if succeeded {
                Stage::Create
            } else {
                Stage::Failed
            },
            Stage::Create => if succeeded {
                Stage::Write
            } else if taken {
                Stage::Create
            } else {
                Stage::Failed
            },
            Stage::Write => if succeeded {
                Stage::SetPermissions
            } else {
                Stage::Remove
            },
            Stage::SetPermissions => if succeeded {
                Stage::Move
            } else {
                Stage::Remove
            },
            Stage::Move => if succeeded {
                Stage::Done
            } else {
                Stage::Remove
            },
            Stage::Remove => Stage::Failed,
            Stage::Done => Stage::Done,
            Stage::Failed => Stage::Failed,
        };
        if taken {
            self.attempt = self.attempt + 1;
        }
        if self.error.is_none() {
            self.error = error;
        }
    }
}

/// Begins to replace a file through a temporary one in the same directory, which
/// keeps its permissions. They are read first; nothing is created where that fails.
pub fn replace_file(path: Vec<u8>, process: u32) -> (r: Replacement)
    ensures
        r.path == path,
        r.process == process,
        r.attempt == 0,
        r.stage == Stage::ReadPermissions,
        r.error is None,
{
    Replacement { path, process, attempt: 0, stage: Stage::ReadPermissions, error: None }
}

/// What is on the disk while a file is replaced. A file is complete once all of
/// the contents have been written to it and it has the permissions of the file
/// that it replaces.
pub struct Disk {
    /// The temporary file, if there is one: whether the contents were written,
    /// and whether the permissions were set.
    pub temporary: Option<(bool, bool)>,
    /// The file in the place of the old one, if it has been replaced.
    pub replacement: Option<(bool, bool)>,
}

/// What a step does to the disk. A write that fails may have written a part.
pub open spec fn effect(disk: Disk, stage: Stage, outcome: Outcome) -> Disk {
    if !(outcome is Succeeded) {
        disk
    } else {
        match stage {
            Stage::ReadPermissions => disk,
            Stage::Create => Disk { temporary: Some((false, false)), ..disk },
            Stage::Write => Disk {
                temporary: match disk.temporary {
                    Some((_, permitted)) => Some((true, permitted)),
                    None => None,
                },
                ..disk
            },
            Stage::SetPermissions => Disk {
                temporary: match disk.temporary {
                    Some((written, _)) => Some((written, true)),
                    None => None,
                },
                ..disk
            },
            Stage::Move => Disk { temporary: None, replacement: disk.temporary },
            Stage::Remove => Disk { temporary: None, ..disk },
            Stage::Done => disk,
            Stage::Failed => disk,
        }
    }
}

/// The stage and the disk after some steps.
pub open spec fn after_steps(outcomes: Seq<Outcome>) -> (Stage, Disk)
    decreases outcomes.len(),
{
    if outcomes.len() == 0 {
        (Stage::ReadPermissions, Disk { temporary: None, replacement: None })
    } else {
        let (stage, disk) = after_steps(outcomes.drop_last());
        (next_stage(stage, outcomes.last()), effect(disk, stage, outcomes.last()))
    }
}

/// However the steps of a replacement go, the file is either as it was or has
/// been replaced by one that is complete; it has been replaced just where the
/// replacement is done. A temporary file is left only while there are steps to
/// come, or where its removal failed.
pub proof fn law_a_file_is_replaced_whole_or_not_at_all(outcomes: Seq<Outcome>)
    ensures
        ({
            let (stage, disk) = after_steps(outcomes);
            &&& disk.replacement is Some <==> stage == Stage::Done
            &&& disk.replacement matches Some(file) ==> file == (true, true)
            &&& stage == Stage::ReadPermissions || stage == Stage::Create || stage == Stage::Done
                ==> disk.temporary is None
            &&& stage == Stage::Failed && (forall|i: int|
                0 <= i < outcomes.len() && after_steps(outcomes.take(i)).0 == Stage::Remove ==> (
                #[trigger] outcomes[i]) is Succeeded) ==> disk.temporary is None
        }),
    decreases outcomes.len(),
{
    lemma_steps(outcomes);
    let (stage, disk) = after_steps(outcomes);
    if stage == Stage::Failed && (forall|i: int|
        0 <= i < outcomes.len() && after_steps(outcomes.take(i)).0 == Stage::Remove ==> (
        #[trigger] outcomes[i]) is Succeeded) {
        let fewer = outcomes.drop_last();
        assert forall|i: int|
            0 <= i < fewer.len() && after_steps(fewer.take(i)).0 == Stage::Remove implies (
        #[trigger] fewer[i]) is Succeeded by {
            assert(fewer.take(i) =~= outcomes.take(i));
            assert(outcomes[i] == fewer[i]);
        }
        law_a_file_is_replaced_whole_or_not_at_all(fewer);
        lemma_steps(fewer);
        assert(outcomes.take(outcomes.len() - 1) =~= fewer);
        assert(outcomes[outcomes.len() - 1] == outcomes.last());
    }
}

/// Where the permissions of the file cannot be read, the replacement has failed:
/// whatever is done after that, nothing is created and nothing is changed.
pub proof fn law_nothing_is_done_without_the_permissions(outcomes: Seq<Outcome>)
    requires
        outcomes.len() > 0,
        !(outcomes[0] is Succeeded),
    ensures
        after_steps(outcomes) == (Stage::Failed, (Disk { temporary: None, replacement: None })),
    decreases outcomes.len(),
{
    let fewer = outcomes.drop_last();
    if fewer.len() > 0 {
        law_nothing_is_done_without_the_permissions(fewer);
    } else {
        assert(outcomes.last() == outcomes[0]);
        assert(after_steps(fewer).0 == Stage::ReadPermissions);
    }
}

/// What is on the disk at each stage.
proof fn lemma_steps(outcomes: Seq<Outcome>)
    ensures
        ({
            let (stage, disk) = after_steps(outcomes);
            match stage {
                Stage::ReadPermissions => disk.temporary is None && disk.replacement is None,
                Stage::Create => disk.temporary is None && disk.replacement is None,
                Stage::Write => disk.temporary is Some && disk.replacement is None,
                Stage::SetPermissions => disk.temporary matches Some((written, _)) && written
                    && disk.replacement is None,
                Stage::Move => disk.temporary == Some((true, true)) && disk.replacement is None,
                Stage::Remove => disk.temporary is Some && disk.replacement is None,
                Stage::Done => disk.temporary is None && disk.replacement == Some((true, true)),
                Stage::Failed => disk.replacement is None,
            }
        }),
    decreases outcomes.len(),
{
    if outcomes.len() > 0 {
        lemma_steps(outcomes.drop_last());
    }
}

/// Each attempt uses another name.
pub proof fn law_attempts_use_different_names(
    path: Seq<u8>,
    process: u32,
    attempt: u32,
    other: u32,
)
    requires
        attempt != other,
    ensures
        temporary_name(path, process, attempt) != temporary_name(path, process, other),
{
    let head = path + TEMPORARY_MARK.spec_bytes() + decimal(process as nat) + seq![DOT];
    let one = temporary_name(path, process, attempt);
    let two = temporary_name(path, process, other);
    assert(one =~= head + decimal(attempt as nat));
    assert(two =~= head + decimal(other as nat));
    if one == two {
        assert(one.skip(head.len() as int) =~= decimal(attempt as nat));
        assert(two.skip(head.len() as int) =~= decimal(other as nat));
        law_decimal_is_unique(attempt as nat, other as nat);
    }
}

/// The temporary file is in the directory of the file that it replaces.
pub proof fn law_temporary_file_is_beside(path: Seq<u8>, process: u32, attempt: u32)
    requires
        file_name_span(path) matches Some((_, end)) && end == path.len(),
    ensures
        parent_of(temporary_name(path, process, attempt)) == parent_of(path),
{
    let suffix = temporary_suffix(process, attempt);
    let mark = TEMPORARY_MARK.spec_bytes();
    reveal_strlit(".cygshim.");
    assert(TEMPORARY_MARK.is_ascii());
    is_ascii_spec_bytes(TEMPORARY_MARK);
    lemma_decimal_digits(process as nat);
    lemma_decimal_digits(attempt as nat);
    let head = mark + decimal(process as nat);
    assert forall|i: int| 0 <= i < suffix.len() implies #[trigger] suffix[i] != BACKSLASH
        && suffix[i] != SLASH && suffix[i] != COLON by {
        if i < mark.len() {
            assert(suffix[i] == mark[i]);
            assert(mark[i] == TEMPORARY_MARK@[i] as u8);
        } else if i < head.len() {
            assert(suffix[i] == decimal(process as nat)[i - mark.len()]);
        } else if i > head.len() {
            assert(suffix[i] == decimal(attempt as nat)[i - head.len() - 1]);
        }
    }
    assert(suffix[0] == mark[0]);
    law_an_extended_name_stays_in_its_directory(path, suffix);
}

/// The name of a temporary file is that of the file, `.cygshim.`, the number of the
/// process, a dot and the number of the attempt. Two processes never use the same
/// name for one file.
pub proof fn law_temporary_names(path: Seq<u8>, process: u32, attempt: u32, other: u32, later: u32)
    ensures
        temporary_name(path, process, attempt) == path + ".cygshim.".spec_bytes() + decimal(
            process as nat,
        ) + seq![0x2eu8] + decimal(attempt as nat),
        process != other ==> temporary_name(path, process, attempt) != temporary_name(
            path,
            other,
            later,
        ),
{
    let one = temporary_name(path, process, attempt);
    let two = temporary_name(path, other, later);
    let head = path + ".cygshim.".spec_bytes();
    let a = decimal(process as nat);
    let b = decimal(other as nat);
    assert(one =~= head + a + seq![0x2eu8] + decimal(attempt as nat));
    assert(two =~= head + b + seq![0x2eu8] + decimal(later as nat));
    if one == two {
        lemma_decimal_digits(process as nat);
        lemma_decimal_digits(other as nat);
        let n = head.len() as int;
        let whole = head + a + seq![0x2eu8] + decimal(attempt as nat);
        let same = head + b + seq![0x2eu8] + decimal(later as nat);
        assert(whole == same);
        assert(whole[n + a.len()] == 0x2e);
        assert(same[n + b.len()] == 0x2e);
        if a.len() < b.len() {
            assert(same[n + a.len()] == b[a.len() as int]);
        }
        if b.len() < a.len() {
            assert(whole[n + b.len()] == a[b.len() as int]);
        }
        assert(a =~= b) by {
            assert forall|i: int| 0 <= i < a.len() implies a[i] == b[i] by {
                assert(whole[n + i] == a[i]);
                assert(same[n + i] == b[i]);
            }
        }
        law_decimal_is_unique(process as nat, other as nat);
    }
}

/// Some names that are taken, one after the other.
pub open spec fn all_taken(outcomes: Seq<Outcome>) -> bool {
    forall|i: int| 0 <= i < outcomes.len() ==> (#[trigger] outcomes[i]) is AlreadyExists
}

proof fn lemma_names_taken(start: Outcome, taken: Seq<Outcome>)
    requires
        start is Succeeded,
        all_taken(taken),
    ensures
        after_steps(seq![start] + taken) == (
            Stage::Create,
            (Disk { temporary: None, replacement: None }),
        ),
    decreases taken.len(),
{
    let all = seq![start] + taken;
    if taken.len() == 0 {
        assert(all =~= seq![start]);
        assert(all.drop_last() =~= Seq::<Outcome>::empty());
        assert(all.last() == start);
        assert(after_steps(all.drop_last()).0 == Stage::ReadPermissions);
    } else {
        let fewer = taken.drop_last();
        assert(all.drop_last() =~= seq![start] + fewer);
        assert(all.last() == taken[taken.len() - 1]);
        assert forall|i: int| 0 <= i < fewer.len() implies (
        #[trigger] fewer[i]) is AlreadyExists by {
            assert(fewer[i] == taken[i]);
        }
        lemma_names_taken(start, fewer);
    }
}

/// A replacement whose steps all succeed replaces the file, however many names are
/// taken before one is free: the permissions are read, a file is created, written,
/// given the permissions and moved, and the new file has the contents and the
/// permissions.
pub proof fn law_a_replacement_gets_done(ok: Outcome, taken: Seq<Outcome>)
    requires
        ok is Succeeded,
        all_taken(taken),
    ensures
        after_steps(seq![ok] + taken + seq![ok, ok, ok, ok]) == (
            Stage::Done,
            (Disk { temporary: None, replacement: Some((true, true)) }),
        ),
{
    lemma_names_taken(ok, taken);
    let start = seq![ok] + taken;
    let all = start + seq![ok, ok, ok, ok];
    let three = start + seq![ok, ok, ok];
    let two = start + seq![ok, ok];
    let one = start + seq![ok];
    assert(all.drop_last() =~= three);
    assert(three.drop_last() =~= two);
    assert(two.drop_last() =~= one);
    assert(one.drop_last() =~= start);
    assert(all.last() == ok && three.last() == ok && two.last() == ok && one.last() == ok);
    assert(after_steps(one).0 == Stage::Write);
    assert(after_steps(two).0 == Stage::SetPermissions);
    assert(after_steps(three).0 == Stage::Move);
}

/// A step that fails after the temporary file was created leads to its removal, and
/// then to the end; a name that is taken at any step but the creation is such a
/// failure too. The error of the failed step is the one that the replacement ends
/// with, and not that of the removal.
pub proof fn law_failures_are_cleaned_up(stage: Stage, outcome: Outcome, removal: Outcome)
    requires
        stage == Stage::Write || stage == Stage::SetPermissions || stage == Stage::Move,
        !(outcome is Succeeded),
    ensures
        next_stage(stage, outcome) == Stage::Remove,
        next_stage(Stage::Remove, removal) == Stage::Failed,
        outcome matches Outcome::Failed(error) ==> failure(stage, outcome) == Some(error),
        outcome matches Outcome::AlreadyExists(error) ==> failure(stage, outcome) == Some(error),
        failure(stage, Outcome::Succeeded) is None,
        outcome matches Outcome::AlreadyExists(error) ==> failure(Stage::Create, outcome) is None,
        outcome matches Outcome::Failed(error) ==> failure(Stage::Create, outcome) == Some(error)
            && next_stage(Stage::Create, outcome) == Stage::Failed,
{
}

/// Names run out only where a file is to be created and every number of an attempt
/// has been used.
pub proof fn law_names_run_out_late(replacement: Replacement)
    ensures
        replacement.spec_exhausted() <==> replacement.stage == Stage::Create && replacement.attempt
            == 0xffff_ffff,
{
}

} // verus!
