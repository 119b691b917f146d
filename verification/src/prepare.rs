//! Preparing a plan's joins: each right side's header is worked out from that of
//! its file before the plan itself is resolved.

use crate::error::Error;
use crate::plan::{JoinStmt, Plan, Stage};
use crate::resolve::{
    after, copy_names, graph_names, join_header, plan_found, plan_header, reports, stage_header,
    stages_header,
};
use crate::text::{same, texts};
use vstd::prelude::*;

verus! {

/// The header of a file, or why it could not be read.
#[derive(Debug)]
pub struct FileHeader {
    pub path: String,
    pub header: Result<Vec<String>, String>,
}

/// The first of the files with this path, from `k` on.
pub open spec fn file_from(files: Seq<FileHeader>, path: Seq<char>, k: int) -> Option<int>
    decreases files.len() - k,
{
    if k >= files.len() {
        None
    } else if files[k].path@ == path {
        Some(k)
    } else {
        file_from(files, path, k + 1)
    }
}

/// Whether the headers of these files were read.
pub open spec fn listed(files: Seq<FileHeader>, paths: Seq<Seq<char>>) -> bool {
    forall|i: int| 0 <= i < paths.len() ==> file_from(files, #[trigger] paths[i], 0) is Some
}

/// The files whose headers a plan's joins need, in the order they are read: a
/// join's own right side comes behind those nested in it, and needs no file
/// where its pipeline names the columns.
pub open spec fn plan_files(plan: Plan) -> Seq<Seq<char>>
    decreases plan,
{
    stages_files(plan.stages@)
}

/// The files that the stages need.
pub open spec fn stages_files(stages: Seq<Stage>) -> Seq<Seq<char>>
    decreases stages,
{
    if stages.len() == 0 {
        seq![]
    } else {
        stages_files(stages.subrange(0, stages.len() - 1)) + stage_files(stages[stages.len() - 1])
    }
}

/// The files that a stage needs.
pub open spec fn stage_files(stage: Stage) -> Seq<Seq<char>>
    decreases stage,
{
    match stage {
        Stage::Join(j) => plan_files(j.right_plan) + own_file(j),
        _ => seq![],
    }
}

/// The file that a join's own right side needs.
pub open spec fn own_file(j: JoinStmt) -> Seq<Seq<char>> {
    if j.right_plan.input_header is None {
        seq![j.file@]
    } else {
        seq![]
    }
}

/// The header that a join's right side starts from, or why its file could not be
/// read.
pub open spec fn right_input(files: Seq<FileHeader>, plan: Plan, file: Seq<char>) -> Result<
    Seq<Seq<char>>,
    Seq<char>,
> {
    match plan.input_header {
        Some(h) => Ok(texts(h@)),
        None => match files[file_from(files, file, 0)->0].header {
            Ok(h) => Ok(texts(h@)),
            Err(m) => Err(m@),
        },
    }
}

/// Why a join could not be prepared: its file could not be read, or its pipeline
/// names a column that is not in the header.
pub enum UnpreparedV {
    Unread(Seq<char>),
    Unknown(Seq<Seq<char>>, Seq<char>),
}

/// The header that a stage leaves, where `right` is that of its right side.
pub open spec fn stage_given(
    header: Seq<Seq<char>>,
    stage: Stage,
    right: Seq<Seq<char>>,
) -> Result<Seq<Seq<char>>, (Seq<Seq<char>>, Seq<char>)> {
    match stage {
        Stage::Join(j) => join_header(header, j.keys@, right),
        _ => stage_header(header, stage),
    }
}

/// The header that the stages leave, where `rights` are those of their right
/// sides.
pub open spec fn stages_given(
    header: Seq<Seq<char>>,
    stages: Seq<Stage>,
    rights: Seq<Seq<Seq<char>>>,
) -> Result<Seq<Seq<char>>, (Seq<Seq<char>>, Seq<char>)>
    decreases stages.len(),
{
    if stages.len() == 0 {
        Ok(header)
    } else {
        match stages_given(header, stages.drop_last(), rights.drop_last()) {
            Ok(h) => stage_given(h, stages.last(), rights.last()),
            Err(e) => Err(e),
        }
    }
}

/// The header that a plan writes, where `rights` are those of its right sides.
pub open spec fn plan_given(
    header: Seq<Seq<char>>,
    plan: Plan,
    rights: Seq<Seq<Seq<char>>>,
) -> Result<Seq<Seq<char>>, (Seq<Seq<char>>, Seq<char>)> {
    match stages_given(header, plan.stages@, rights) {
        Ok(h) => after(h, graph_names(plan.graph), h),
        Err(e) => Err(e),
    }
}

/// The headers of a plan's right sides, stage by stage.
pub open spec fn plan_rights(files: Seq<FileHeader>, plan: Plan) -> Result<
    Seq<Seq<Seq<char>>>,
    UnpreparedV,
>
    decreases plan,
{
    stages_rights(files, plan.stages@)
}

/// The headers of the stages' right sides; an empty one for a stage that is no
/// join.
pub open spec fn stages_rights(files: Seq<FileHeader>, stages: Seq<Stage>) -> Result<
    Seq<Seq<Seq<char>>>,
    UnpreparedV,
>
    decreases stages,
{
    if stages.len() == 0 {
        Ok(seq![])
    } else {
        match stages_rights(files, stages.subrange(0, stages.len() - 1)) {
            Ok(hs) => match stage_right(files, stages[stages.len() - 1]) {
                Ok(h) => Ok(hs.push(h)),
                Err(e) => Err(e),
            },
            Err(e) => Err(e),
        }
    }
}

/// The header of a stage's right side: what its pipeline writes over the file.
pub open spec fn stage_right(files: Seq<FileHeader>, stage: Stage) -> Result<
    Seq<Seq<char>>,
    UnpreparedV,
>
    decreases stage,
{
    match stage {
        Stage::Join(j) => match plan_rights(files, j.right_plan) {
            Err(e) => Err(e),
            Ok(rights) => match right_input(files, j.right_plan, j.file@) {
                Err(m) => Err(UnpreparedV::Unread(m)),
                Ok(h) => match plan_given(h, j.right_plan, rights) {
                    Err((g, n)) => Err(UnpreparedV::Unknown(g, n)),
                    Ok(names) => Ok(names),
                },
            },
        },
        _ => Ok(seq![]),
    }
}

/// Whether `r` is the plan with its joins prepared.
pub open spec fn plan_ready(files: Seq<FileHeader>, plan: Plan, r: Plan) -> bool
    decreases plan, 0int,
{
    &&& r.input_header == plan.input_header
    &&& r.output == plan.output
    &&& r.colors == plan.colors
    &&& r.graph == plan.graph
    &&& stages_ready(files, plan.stages@, r.stages@)
}

/// Whether `rs` are the stages with their joins prepared.
pub open spec fn stages_ready(files: Seq<FileHeader>, stages: Seq<Stage>, rs: Seq<Stage>) -> bool
    decreases stages, 0int,
{
    &&& rs.len() == stages.len()
    &&& forall|i: int| 0 <= i < stages.len() ==> stage_ready(files, #[trigger] stages[i], rs[i])
}

/// Whether `r` is the stage, where it is a join with its right side prepared: its
/// pipeline resolved against the file's header, and the header that it writes.
pub open spec fn stage_ready(files: Seq<FileHeader>, stage: Stage, r: Stage) -> bool
    decreases stage, 0int,
{
    match stage {
        Stage::Join(j) => {
            &&& r matches Stage::Join(k)
            &&& k.join_type == j.join_type
            &&& k.file == j.file
            &&& k.keys == j.keys
            &&& k.left_key_pos == j.left_key_pos
            &&& k.right_key_pos == j.right_key_pos
            &&& k.right_emit_pos == j.right_emit_pos
            &&& k.left_ncols == j.left_ncols
            &&& stage_right(files, stage) == Ok::<Seq<Seq<char>>, UnpreparedV>(
                texts(k.right_header@),
            )
            &&& right_ready(files, j.right_plan, j.file@, k.right_plan)
        },
        _ => r == stage,
    }
}

/// Whether `r` is the pipeline of a right side over `file`, with its own joins
/// prepared and its columns found.
pub open spec fn right_ready(files: Seq<FileHeader>, plan: Plan, file: Seq<char>, r: Plan) -> bool
    decreases plan, 1int,
{
    exists|mid: Plan|
        plan_ready(files, plan, mid) && #[trigger] plan_found(
            right_input(files, plan, file)->Ok_0,
            mid,
            r,
        )
}

/// Whether `e` reports why the joins could not be prepared.
pub open spec fn tells(e: Error, why: UnpreparedV) -> bool {
    match why {
        UnpreparedV::Unread(m) => e matches Error::Other(s) && s@ == m,
        UnpreparedV::Unknown(h, n) => reports(e, h, n),
    }
}

proof fn lemma_ready_header(
    files: Seq<FileHeader>,
    stages: Seq<Stage>,
    rs: Seq<Stage>,
    header: Seq<Seq<char>>,
)
    requires
        stages_ready(files, stages, rs),
        stages_rights(files, stages) is Ok,
    ensures
        stages_header(header, rs) == stages_given(
            header,
            stages,
            stages_rights(files, stages)->Ok_0,
        ),
        stages_rights(files, stages)->Ok_0.len() == stages.len(),
    decreases stages.len(),
{
    if stages.len() > 0 {
        let n = stages.len() - 1;
        let hs = stages_rights(files, stages)->Ok_0;
        assert(stages.subrange(0, n) =~= stages.drop_last());
        assert forall|i: int| 0 <= i < n implies stage_ready(
            files,
            #[trigger] stages.drop_last()[i],
            rs.drop_last()[i],
        ) by {
            assert(stages.drop_last()[i] == stages[i]);
        }
        lemma_ready_header(files, stages.drop_last(), rs.drop_last(), header);
        assert(hs.drop_last() =~= stages_rights(files, stages.drop_last())->Ok_0);
        assert(stage_ready(files, stages[n], rs[n]));
    }
}

fn file_header<'a>(files: &'a [FileHeader], path: &str) -> (r: &'a Result<Vec<String>, String>)
    requires
        file_from(files@, path@, 0) is Some,
    ensures
        *r == files@[file_from(files@, path@, 0)->0].header,
{
    let mut i: usize = 0;
    while i < files.len()
        invariant
            i <= files@.len(),
            file_from(files@, path@, 0) is Some,
            file_from(files@, path@, 0) == file_from(files@, path@, i as int),
        decreases files@.len() - i,
    {
        if same(files[i].path.as_str(), path) {
            return &files[i].header;
        }
        i += 1;
    }
    proof {
        assert(false);
    }
    &files[0].header
}

proof fn lemma_listed_stage(files: Seq<FileHeader>, stages: Seq<Stage>, i: int)
    requires
        listed(files, stages_files(stages)),
        0 <= i < stages.len(),
    ensures
        listed(files, stage_files(stages[i])),
    decreases stages.len(),
{
    let n = stages.len() - 1;
    let a = stages_files(stages.subrange(0, n));
    let b = stage_files(stages[n]);
    lemma_listed_parts(files, a, b);
    if i < n {
        lemma_listed_stage(files, stages.subrange(0, n), i);
        assert(stages.subrange(0, n)[i] == stages[i]);
    }
}

proof fn lemma_listed_parts(files: Seq<FileHeader>, a: Seq<Seq<char>>, b: Seq<Seq<char>>)
    requires
        listed(files, a + b),
    ensures
        listed(files, a),
        listed(files, b),
{
    assert forall|i: int| 0 <= i < a.len() implies file_from(
        files,
        #[trigger] a[i],
        0,
    ) is Some by {
        assert((a + b)[i] == a[i]);
    }
    assert forall|i: int| 0 <= i < b.len() implies file_from(
        files,
        #[trigger] b[i],
        0,
    ) is Some by {
        assert((a + b)[a.len() + i] == b[i]);
    }
}

/// The plan with its joins prepared from the headers of their files, nested ones
/// first; or why the first that cannot be prepared cannot.
pub fn prepare_joins(plan: Plan, files: &[FileHeader]) -> (r: Result<Plan, Error>)
    requires
        listed(files@, plan_files(plan)),
    ensures
        match r {
            Ok(p) => plan_rights(files@, plan) is Ok && plan_ready(files@, plan, p),
            Err(e) => plan_rights(files@, plan) matches Err(why) && tells(e, why),
        },
    decreases plan,
{
    match prepare_stages(plan.stages, files) {
        Ok(stages) => Ok(
            Plan {
                input_header: plan.input_header,
                stages,
                output: plan.output,
                colors: plan.colors,
                graph: plan.graph,
            },
        ),
        Err(e) => Err(e),
    }
}

proof fn lemma_rights_stop(files: Seq<FileHeader>, stages: Seq<Stage>, i: int)
    requires
        0 <= i <= stages.len(),
        stages_rights(files, stages.take(i)) is Err,
    ensures
        stages_rights(files, stages) == stages_rights(files, stages.take(i)),
    decreases stages.len() - i,
{
    if i == stages.len() {
        assert(stages.take(i) =~= stages);
    } else {
        assert(stages.take(i + 1).subrange(0, i) =~= stages.take(i));
        lemma_rights_stop(files, stages, i + 1);
    }
}

fn prepare_stages(stages: Vec<Stage>, files: &[FileHeader]) -> (r: Result<Vec<Stage>, Error>)
    requires
        listed(files@, stages_files(stages@)),
    ensures
        match r {
            Ok(rs) => stages_rights(files@, stages@) is Ok && stages_ready(files@, stages@, rs@),
            Err(e) => stages_rights(files@, stages@) matches Err(why) && tells(e, why),
        },
    decreases stages,
{
    let ghost all = stages@;
    let mut rs: Vec<Stage> = Vec::new();
    for stage in it: stages
        invariant
            it.seq() == all,
            all == stages@,
            listed(files@, stages_files(all)),
            stages_rights(files@, all.take(it.index() as int)) is Ok,
            rs@.len() == it.index(),
            forall|k: int| 0 <= k < it.index() ==> stage_ready(files@, #[trigger] all[k], rs@[k]),
    {
        let ghost i = it.index() as int;
        proof {
            assert(stage == all[i]);
            assert(all.take(i + 1).subrange(0, i) =~= all.take(i));
            lemma_listed_stage(files@, all, i);
        }
        match prepare_stage(stage, files) {
            Ok(s) => rs.push(s),
            Err(e) => {
                proof {
                    lemma_rights_stop(files@, all, i + 1);
                }
                return Err(e);
            },
        }
    }
    assert(all.take(all.len() as int) =~= all);
    Ok(rs)
}

/// The header that a prepared plan writes is the one worked out from the headers
/// of its right sides.
pub proof fn law_a_prepared_plan_writes_the_given_header(
    files: Seq<FileHeader>,
    plan: Plan,
    r: Plan,
    header: Seq<Seq<char>>,
)
    requires
        plan_rights(files, plan) is Ok,
        plan_ready(files, plan, r),
    ensures
        plan_header(header, r) == plan_given(header, plan, plan_rights(files, plan)->Ok_0),
{
    assert(stages_ready(files, plan.stages@, r.stages@));
    assert(plan_rights(files, plan) == stages_rights(files, plan.stages@));
    lemma_ready_header(files, plan.stages@, r.stages@, header);
}

fn resolve_right(
    mid: Plan,
    file: &str,
    files: &[FileHeader],
    Ghost(plan): Ghost<Plan>,
) -> (r: Result<(Plan, Vec<String>), Error>)
    requires
        plan_rights(files@, plan) is Ok,
        plan_ready(files@, plan, mid),
        plan.input_header is None ==> file_from(files@, file@, 0) is Some,
    ensures
        match right_input(files@, plan, file@) {
            Err(m) => r matches Err(e) && tells(e, UnpreparedV::Unread(m)),
            Ok(h) => match plan_given(h, plan, plan_rights(files@, plan)->Ok_0) {
                Err((g, n)) => r matches Err(e) && tells(e, UnpreparedV::Unknown(g, n)),
                Ok(names) => r matches Ok((p, left)) && texts(left@) == names && right_ready(
                    files@,
                    plan,
                    file@,
                    p,
                ),
            },
        },
{
    let header = match &mid.input_header {
        Some(h) => copy_names(h.as_slice()),
        None => match file_header(files, file) {
            Ok(h) => copy_names(h.as_slice()),
            Err(m) => return Err(Error::Other(m.clone())),
        },
    };
    proof {
        assert(right_input(files@, plan, file@) == Ok::<Seq<Seq<char>>, Seq<char>>(texts(header@)));
        law_a_prepared_plan_writes_the_given_header(files@, plan, mid, texts(header@));
    }
    let ghost prepared = mid;
    let r = mid.resolve(header.as_slice());
    proof {
        if let Ok((p, _)) = &r {
            assert(right_ready(files@, plan, file@, *p));
        }
    }
    r
}

fn prepare_stage(stage: Stage, files: &[FileHeader]) -> (r: Result<Stage, Error>)
    requires
        listed(files@, stage_files(stage)),
    ensures
        match r {
            Ok(s) => stage_right(files@, stage) is Ok && stage_ready(files@, stage, s),
            Err(e) => stage_right(files@, stage) matches Err(why) && tells(e, why),
        },
    decreases stage,
{
    match stage {
        Stage::Join(j) => {
            proof {
                lemma_listed_parts(files@, plan_files(j.right_plan), own_file(j));
                if j.right_plan.input_header is None {
                    assert(own_file(j)[0] == j.file@);
                }
            }
            let ghost nested = j.right_plan;
            let mid = match prepare_joins(j.right_plan, files) {
                Ok(p) => p,
                Err(e) => return Err(e),
            };
            match resolve_right(mid, j.file.as_str(), files, Ghost(nested)) {
                Ok((right_plan, right_header)) => {
                    Ok(
                        Stage::Join(
                            JoinStmt {
                                join_type: j.join_type,
                                file: j.file,
                                keys: j.keys,
                                left_key_pos: j.left_key_pos,
                                right_key_pos: j.right_key_pos,
                                right_emit_pos: j.right_emit_pos,
                                left_ncols: j.left_ncols,
                                right_plan,
                                right_header,
                            },
                        ),
                    )
                },
                Err(e) => Err(e),
            }
        },
        other => Ok(other),
    }
}

/// The files whose headers the plan's joins need, in the order they are read.
pub fn join_files(plan: &Plan) -> (r: Vec<String>)
    ensures
        texts(r@) == plan_files(*plan),
    decreases plan,
{
    let mut r: Vec<String> = Vec::new();
    push_files(&plan.stages, &mut r);
    assert(texts(r@) =~= stages_files(plan.stages@));
    r
}

fn push_files(stages: &Vec<Stage>, out: &mut Vec<String>)
    ensures
        texts(final(out)@) =~= texts(old(out)@) + stages_files(stages@),
    decreases stages,
{
    let ghost start = texts(out@);
    let mut i: usize = 0;
    while i < stages.len()
        invariant
            i <= stages@.len(),
            texts(out@) =~= start + stages_files(stages@.take(i as int)),
        decreases stages@.len() - i,
    {
        proof {
            assert(stages@.take(i + 1).subrange(0, i as int) =~= stages@.take(i as int));
        }
        if let Stage::Join(j) = &stages[i] {
            push_plan_files(&j.right_plan, out);
            let ghost mid = out@;
            if j.right_plan.input_header.is_none() {
                out.push(j.file.clone());
                assert(texts(out@) =~= texts(mid).push(j.file@));
            }
            assert(texts(out@) =~= texts(mid) + own_file(*j));
            assert(stage_files(stages@[i as int]) == plan_files(j.right_plan) + own_file(*j));
        } else {
            assert(stage_files(stages@[i as int]) =~= Seq::<Seq<char>>::empty());
        }
        i += 1;
    }
    assert(stages@.take(i as int) =~= stages@);
}

fn push_plan_files(plan: &Plan, out: &mut Vec<String>)
    ensures
        texts(final(out)@) =~= texts(old(out)@) + plan_files(*plan),
    decreases plan,
{
    push_files(&plan.stages, out);
}

} // verus!
