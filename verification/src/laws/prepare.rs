//! What the right side of a join is.

use crate::plan::{JoinStmt, Stage};
use crate::prepare::{
    FileHeader, UnpreparedV, file_from, plan_files, plan_rights, stage_files, stage_right,
    stages_files, stages_rights,
};
use crate::text::texts;
use vstd::prelude::*;

verus! {

/// Whether `i` is the first of the files that was read from that path.
pub open spec fn first_read(files: Seq<FileHeader>, path: Seq<char>, i: int) -> bool {
    &&& 0 <= i < files.len()
    &&& files[i].path@ == path
    &&& forall|k: int| 0 <= k < i ==> (#[trigger] files[k]).path@ != path
}

proof fn lemma_file(files: Seq<FileHeader>, path: Seq<char>, k: int, i: int)
    requires
        0 <= k <= i < files.len(),
        files[i].path@ == path,
        forall|j: int| k <= j < i ==> (#[trigger] files[j]).path@ != path,
    ensures
        file_from(files, path, k) == Some(i),
    decreases i - k,
{
    if k < i {
        assert(files[k].path@ != path);
        lemma_file(files, path, k + 1, i);
    }
}

/// The right side of a join without stages has the columns that its `hdr` gives it, or
/// else those of its own file; a file that could not be read is what is wrong.
pub proof fn law_a_join_reads_its_own_file(files: Seq<FileHeader>, j: JoinStmt, i: int)
    requires
        j.right_plan.stages@.len() == 0,
        j.right_plan.graph is None,
        first_read(files, j.file@, i),
    ensures
        j.right_plan.input_header matches Some(h) ==> stage_right(files, Stage::Join(j)) == Ok::<
            Seq<Seq<char>>,
            UnpreparedV,
        >(texts(h@)),
        j.right_plan.input_header is None ==> match files[i].header {
            Ok(h) => stage_right(files, Stage::Join(j)) == Ok::<Seq<Seq<char>>, UnpreparedV>(
                texts(h@),
            ),
            Err(m) => stage_right(files, Stage::Join(j)) == Err::<Seq<Seq<char>>, UnpreparedV>(
                UnpreparedV::Unread(m@),
            ),
        },
{
    lemma_file(files, j.file@, 0, i);
    let p = j.right_plan;
    assert(stages_rights(files, p.stages@) == Ok::<Seq<Seq<Seq<char>>>, UnpreparedV>(seq![]));
    assert(plan_rights(files, p) == Ok::<Seq<Seq<Seq<char>>>, UnpreparedV>(seq![]));
}

/// The file of every join that names no columns itself is among those that are read.
pub proof fn law_every_joined_file_is_read(stages: Seq<Stage>, j: JoinStmt, i: int)
    requires
        0 <= i < stages.len(),
        stages[i] == Stage::Join(j),
        j.right_plan.input_header is None,
    ensures
        stages_files(stages).contains(j.file@),
    decreases stages.len(),
{
    let front = stages.subrange(0, stages.len() - 1);
    let (a, b) = (stages_files(front), stage_files(stages[stages.len() - 1]));
    let all = stages_files(stages);
    assert(all =~= a + b);
    if i < stages.len() - 1 {
        assert(front[i] == stages[i]);
        law_every_joined_file_is_read(front, j, i);
        let k = a.index_of(j.file@);
        assert(all[k] == j.file@);
    } else {
        let inner = plan_files(j.right_plan);
        assert(b =~= inner + seq![j.file@]);
        assert(all[(a.len() + inner.len()) as int] == j.file@);
    }
}

/// The files that the right side of a join joins in turn are read too.
pub proof fn law_files_of_inner_joins_are_read(j: JoinStmt, path: Seq<char>)
    requires
        plan_files(j.right_plan).contains(path),
    ensures
        stage_files(Stage::Join(j)).contains(path),
{
    let inner = plan_files(j.right_plan);
    let k = inner.index_of(path);
    assert(stage_files(Stage::Join(j))[k] == path);
}

} // verus!
