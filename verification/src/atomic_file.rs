//! How a file is written so that it is never seen half done.
//!
//! The contents go to a temporary file that takes the final name once it is
//! complete; where a step fails, the temporary file is removed. The effect of the
//! steps on the files is modelled, so that it can be stated what they do together.

use vstd::prelude::*;

verus! {

/// A step in writing a file.
#[derive(Clone, Copy, Debug, PartialEq, Eq, Structural)]
pub enum WriteStep {
    /// Create the temporary file.
    Create,
    /// Write the contents to it.
    Write,
    /// Bring them to the disk.
    Sync,
    /// Give the temporary file the final name.
    Rename,
}

/// What is to be done after a step.
#[derive(Clone, Copy, Debug, PartialEq, Eq, Structural)]
pub enum WriteNext {
    Perform(WriteStep),
    /// The file stands under its final name.
    Done,
    /// Remove the temporary file; the file is not written.
    CleanUp,
}

/// The step with which writing begins.
pub open spec fn opening_step() -> WriteStep {
    WriteStep::Create
}

/// What follows a step that succeeded or failed.
pub open spec fn following(step: WriteStep, succeeded: bool) -> WriteNext {
    if !succeeded {
        WriteNext::CleanUp
    } else {
        match step {
            WriteStep::Create => WriteNext::Perform(WriteStep::Write),
            WriteStep::Write => WriteNext::Perform(WriteStep::Sync),
            WriteStep::Sync => WriteNext::Perform(WriteStep::Rename),
            WriteStep::Rename => WriteNext::Done,
        }
    }
}

/// The step with which writing begins.
pub fn first_step() -> (step: WriteStep)
    ensures
        step == opening_step(),
{
    WriteStep::Create
}

/// What follows a step that succeeded or failed.
pub fn next_step(step: WriteStep, succeeded: bool) -> (next: WriteNext)
    ensures
        next == following(step, succeeded),
{
    if !succeeded {
        return WriteNext::CleanUp;
    }
    match step {
        WriteStep::Create => WriteNext::Perform(WriteStep::Write),
        WriteStep::Write => WriteNext::Perform(WriteStep::Sync),
        WriteStep::Sync => WriteNext::Perform(WriteStep::Rename),
        WriteStep::Rename => WriteNext::Done,
    }
}

/// Whether a step that succeeded may turn the files `before` into the files `after`.
pub open spec fn step_succeeds(
    step: WriteStep,
    before: Map<Seq<char>, Seq<u8>>,
    after: Map<Seq<char>, Seq<u8>>,
    temporary: Seq<char>,
    name: Seq<char>,
    contents: Seq<u8>,
) -> bool {
    match step {
        WriteStep::Create => after == before.insert(temporary, Seq::empty()),
        WriteStep::Write => after == before.insert(temporary, contents),
        WriteStep::Sync => after == before,
        WriteStep::Rename => {
            &&& before.dom().contains(temporary)
            &&& after == before.insert(name, before[temporary]).remove(temporary)
        },
    }
}

/// Whether a step that failed may turn the files `before` into the files `after`: it
/// touches the temporary file at most.
pub open spec fn step_fails(
    before: Map<Seq<char>, Seq<u8>>,
    after: Map<Seq<char>, Seq<u8>>,
    temporary: Seq<char>,
) -> bool {
    after.remove(temporary) == before.remove(temporary)
}

/// Whether writing may go through the states `files` of the directory, one before
/// every step and one at the end, until `next` is to be done.
pub open spec fn writes(
    files: Seq<Map<Seq<char>, Seq<u8>>>,
    steps: Seq<WriteStep>,
    next: WriteNext,
    temporary: Seq<char>,
    name: Seq<char>,
    contents: Seq<u8>,
) -> bool
    decreases steps.len(),
{
    &&& files.len() == steps.len() + 1
    &&& if steps.len() == 0 {
        next == WriteNext::Perform(opening_step())
    } else {
        let step = steps.last();
        let before = files[steps.len() - 1];
        let after = files[steps.len() as int];
        &&& writes(
            files.drop_last(),
            steps.drop_last(),
            WriteNext::Perform(step),
            temporary,
            name,
            contents,
        )
        &&& {
            ||| step_succeeds(step, before, after, temporary, name, contents) && next == following(
                step,
                true,
            )
            ||| step_fails(before, after, temporary) && next == following(step, false)
        }
    }
}

/// The files after the steps that succeeded so far.
pub open spec fn partly_written(
    start: Map<Seq<char>, Seq<u8>>,
    next: WriteNext,
    temporary: Seq<char>,
    name: Seq<char>,
    contents: Seq<u8>,
) -> Map<Seq<char>, Seq<u8>> {
    match next {
        WriteNext::Perform(WriteStep::Create) => start,
        WriteNext::Perform(WriteStep::Write) => start.insert(temporary, Seq::empty()),
        WriteNext::Perform(_) => start.insert(temporary, contents),
        _ => start.insert(name, contents).remove(temporary),
    }
}

proof fn lemma_progress(
    files: Seq<Map<Seq<char>, Seq<u8>>>,
    steps: Seq<WriteStep>,
    next: WriteNext,
    temporary: Seq<char>,
    name: Seq<char>,
    contents: Seq<u8>,
)
    requires
        writes(files, steps, next, temporary, name, contents),
        temporary != name,
    ensures
        next != WriteNext::CleanUp ==> files.last() == partly_written(
            files[0],
            next,
            temporary,
            name,
            contents,
        ),
        next == WriteNext::CleanUp ==> files.last().remove(temporary) == files[0].remove(temporary),
    decreases steps.len(),
{
    if steps.len() > 0 {
        let step = steps.last();
        let fewer = files.drop_last();
        lemma_progress(
            fewer,
            steps.drop_last(),
            WriteNext::Perform(step),
            temporary,
            name,
            contents,
        );
        assert(fewer[0] == files[0]);
        let start = files[0];
        let before = files[steps.len() - 1];
        let after = files[steps.len() as int];
        assert(fewer.last() == before);
        assert(before == partly_written(
            start,
            WriteNext::Perform(step),
            temporary,
            name,
            contents,
        ));
        if next == WriteNext::CleanUp {
            assert(before.remove(temporary) =~= start.remove(temporary));
        } else {
            assert(after =~= partly_written(start, next, temporary, name, contents));
        }
    }
}

/// Once a file is written, it holds all of its contents, the temporary file is gone,
/// and every other file is as it was.
pub proof fn a_written_file_is_complete(
    files: Seq<Map<Seq<char>, Seq<u8>>>,
    steps: Seq<WriteStep>,
    temporary: Seq<char>,
    name: Seq<char>,
    contents: Seq<u8>,
)
    requires
        writes(files, steps, WriteNext::Done, temporary, name, contents),
        temporary != name,
    ensures
        files.last() == files[0].insert(name, contents).remove(temporary),
{
    lemma_progress(files, steps, WriteNext::Done, temporary, name, contents);
}

/// Where a step fails, the removal of the temporary file leaves every other file as
/// it was before.
pub proof fn a_failed_write_leaves_no_trace(
    files: Seq<Map<Seq<char>, Seq<u8>>>,
    steps: Seq<WriteStep>,
    temporary: Seq<char>,
    name: Seq<char>,
    contents: Seq<u8>,
)
    requires
        writes(files, steps, WriteNext::CleanUp, temporary, name, contents),
        temporary != name,
    ensures
        files.last().remove(temporary) == files[0].remove(temporary),
{
    lemma_progress(files, steps, WriteNext::CleanUp, temporary, name, contents);
}

/// Until a file stands under its final name with all of its contents, what stands
/// there is what stood there before.
pub proof fn the_final_name_changes_at_once(
    files: Seq<Map<Seq<char>, Seq<u8>>>,
    steps: Seq<WriteStep>,
    next: WriteNext,
    temporary: Seq<char>,
    name: Seq<char>,
    contents: Seq<u8>,
)
    requires
        writes(files, steps, next, temporary, name, contents),
        temporary != name,
        next != WriteNext::Done,
    ensures
        files.last().dom().contains(name) == files[0].dom().contains(name),
        files[0].dom().contains(name) ==> files.last()[name] == files[0][name],
{
    lemma_progress(files, steps, next, temporary, name, contents);
    if next == WriteNext::CleanUp {
        let end = files.last().remove(temporary);
        let start = files[0].remove(temporary);
        assert(end.dom().contains(name) == files.last().dom().contains(name));
        assert(start.dom().contains(name) == files[0].dom().contains(name));
        if files[0].dom().contains(name) {
            assert(start[name] == files[0][name]);
            assert(end[name] == files.last()[name]);
        }
    }
}

proof fn lemma_write_order(
    files: Seq<Map<Seq<char>, Seq<u8>>>,
    steps: Seq<WriteStep>,
    next: WriteNext,
    temporary: Seq<char>,
    name: Seq<char>,
    contents: Seq<u8>,
)
    requires
        writes(files, steps, next, temporary, name, contents),
    ensures
        ({
            let course = seq![
                WriteStep::Create,
                WriteStep::Write,
                WriteStep::Sync,
                WriteStep::Rename,
            ];
            match next {
                WriteNext::Perform(step) => steps.len() <= 3 && steps == course.take(
                    steps.len() as int,
                ) && course[steps.len() as int] == step,
                WriteNext::Done => steps == course,
                WriteNext::CleanUp => 1 <= steps.len() <= 4 && steps == course.take(
                    steps.len() as int,
                ),
            }
        }),
    decreases steps.len(),
{
    let course = seq![WriteStep::Create, WriteStep::Write, WriteStep::Sync, WriteStep::Rename];
    if steps.len() > 0 {
        let fewer = steps.drop_last();
        let step = steps.last();
        lemma_write_order(
            files.drop_last(),
            fewer,
            WriteNext::Perform(step),
            temporary,
            name,
            contents,
        );
        let n = fewer.len() as int;
        assert(steps =~= fewer.push(step));
        assert(course.take(n + 1) =~= course.take(n).push(course[n]));
        if n == 3 {
            assert(course.take(4) =~= course);
        }
    } else {
        assert(course.take(0) =~= steps);
    }
}

/// A file is written in four steps: it is created under its temporary name, written,
/// brought to the disk and only then renamed; a step that fails ends it.
pub proof fn files_are_renamed_last(
    files: Seq<Map<Seq<char>, Seq<u8>>>,
    steps: Seq<WriteStep>,
    next: WriteNext,
    temporary: Seq<char>,
    name: Seq<char>,
    contents: Seq<u8>,
)
    requires
        writes(files, steps, next, temporary, name, contents),
    ensures
        next == WriteNext::Done ==> steps == seq![
            WriteStep::Create,
            WriteStep::Write,
            WriteStep::Sync,
            WriteStep::Rename,
        ],
        next == WriteNext::CleanUp ==> 1 <= steps.len() <= 4,
        forall|i: int|
            0 <= i < steps.len() - 1 ==> #[trigger] steps[i] != WriteStep::Rename,
{
    lemma_write_order(files, steps, next, temporary, name, contents);
    let course = seq![WriteStep::Create, WriteStep::Write, WriteStep::Sync, WriteStep::Rename];
    assert forall|i: int| 0 <= i < steps.len() - 1 implies #[trigger] steps[i]
        != WriteStep::Rename by {
        assert(steps[i] == course[i]);
    }
}

/// Whatever step failed, writing is over and the temporary file is to be removed.
pub proof fn failures_are_cleaned_up(step: WriteStep)
    ensures
        following(step, false) == WriteNext::CleanUp,
        following(step, true) != WriteNext::CleanUp,
        following(step, true) == WriteNext::Done <==> step == WriteStep::Rename,
        opening_step() == WriteStep::Create,
{
}

} // verus!
