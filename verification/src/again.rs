//! Installing the same release again: nothing is done as long as nobody touched
//! its files.

use vstd::prelude::*;
use crate::add::{installed_already, Status};
use crate::catalog::PackageEntry;
use crate::deploy::{look, managed, placements, DeployFile};
use crate::resolution::ResolvedVersion;
use crate::restoring::{consistent, law_files_are_written, recorded, Deployment};
use crate::session::{advanced, tells_of, AddRun, Event};
use crate::state::{Install, ManagedView};
use crate::undo::{found_in, Found, FoundView};

verus! {

/// What is recorded of the files of a release are its files.
pub proof fn law_files_are_recorded(files: Seq<DeployFile>, store: Seq<char>)
    ensures
        recorded(placements(files), managed(files, store)),
{
}

/// Installing the same version again is found to be nothing to do, as long as
/// nobody touched the files, where the release has no two different files for
/// one path.
pub proof fn law_installing_again_does_nothing(
    d: Deployment,
    mine: Seq<ManagedView>,
    id: Seq<char>,
    installs: Map<Seq<char>, Install>,
    seen: Map<Seq<char>, Found>,
)
    requires
        recorded(d.files, mine),
        consistent(d.files),
        installs.dom().contains(id),
        installs[id]@.files == mine,
        forall|i: int|
            0 <= i < mine.len() ==> look(seen, (#[trigger] mine[i]).path) == found_in(
                d.after(),
                mine[i].path,
            ),
    ensures
        installed_already(id, installs[id].version@, installs, seen),
{
    assert forall|i: int| 0 <= i < mine.len() implies look(seen, (#[trigger] mine[i]).path)
        == FoundView::Content(mine[i].sha256) by {
        assert(mine[i].path == d.files[i].dest);
        law_files_are_written(d, i);
    }
}

/// A run without a terminal, from one state to the next: every offer is turned
/// down, and a package is installed where it is not found installed already.
pub open spec fn unattended(
    course: Seq<AddRun>,
    told: Seq<Event>,
    pkgs: Seq<PackageEntry>,
    installs: Map<Seq<char>, Install>,
    seen: Map<Seq<char>, Found>,
) -> bool {
    &&& course.len() == told.len() + 1
    &&& forall|k: int|
        0 <= k < told.len() ==> {
            let run = course[k];
            let p = run.plan@[run.rows@.len() as int];
            &&& run.expects(#[trigger] told[k])
            &&& advanced(run, told[k], pkgs, course[k + 1])
            &&& !(told[k] is Took)
            &&& told[k] is Already <==> run.rows@.len() < run.plan@.len() && run.asked
                == run.missing@.len() && installed_already(p.id@, p.version@, installs, seen)
        }
}

/// Adding a package again changes nothing: once a release is deployed and
/// recorded, and nobody touched its files since, a run that adds it installs
/// nothing, and tells of it in a single row that it is installed already. The
/// release has no two different files for one path.
pub proof fn law_adding_again_changes_nothing(
    d: Deployment,
    files: Seq<DeployFile>,
    store: Seq<char>,
    product: ResolvedVersion,
    installs: Map<Seq<char>, Install>,
    seen: Map<Seq<char>, Found>,
    pkgs: Seq<PackageEntry>,
    course: Seq<AddRun>,
    told: Seq<Event>,
)
    requires
        d.files == placements(files),
        consistent(d.files),
        installs.dom().contains(product.id@),
        installs[product.id@].version@ == product.version@,
        installs[product.id@]@.files == managed(files, store),
        forall|i: int|
            0 <= i < files.len() ==> look(seen, (#[trigger] files[i]).dest_rel@) == found_in(
                d.after(),
                files[i].dest_rel@,
            ),
        unattended(course, told, pkgs, installs, seen),
        course[0].wf(),
        course[0].plan@ == seq![product],
        course[0].rows@.len() == 0,
        !course[0].dry_run,
    ensures
        forall|k: int| 0 <= k < told.len() ==> !((#[trigger] told[k]) is Installed),
        course.last().left() == 0 ==> {
            let rows = course.last().rows@;
            &&& rows.len() == 1
            &&& tells_of(rows[0], product)
            &&& rows[0].status == Status::Already
        },
{
    let mine = managed(files, store);
    law_files_are_recorded(files, store);
    assert forall|i: int| 0 <= i < mine.len() implies look(seen, (#[trigger] mine[i]).path)
        == found_in(d.after(), mine[i].path) by {
        assert(files[i].dest_rel@ == mine[i].path);
    }
    law_installing_again_does_nothing(d, mine, product.id@, installs, seen);
    lemma_course(product, installs, seen, pkgs, course, told, told.len() as int);
    assert forall|k: int| 0 <= k < told.len() implies !((#[trigger] told[k]) is Installed) by {
        lemma_course(product, installs, seen, pkgs, course, told, k);
        assert(course[k].expects(told[k]));
    }
}

proof fn lemma_course(
    product: ResolvedVersion,
    installs: Map<Seq<char>, Install>,
    seen: Map<Seq<char>, Found>,
    pkgs: Seq<PackageEntry>,
    course: Seq<AddRun>,
    told: Seq<Event>,
    k: int,
)
    requires
        installed_already(product.id@, product.version@, installs, seen),
        unattended(course, told, pkgs, installs, seen),
        course[0].wf(),
        course[0].plan@ == seq![product],
        course[0].rows@.len() == 0,
        !course[0].dry_run,
        0 <= k <= told.len(),
    ensures
        course[k].plan@ == seq![product],
        !course[k].dry_run,
        course[k].asked <= course[k].missing@.len(),
        course[k].rows@.len() <= 1,
        course[k].rows@.len() == 1 ==> course[k].asked == course[k].missing@.len() && tells_of(
            course[k].rows@[0],
            product,
        ) && course[k].rows@[0].status == Status::Already,
    decreases k,
{
    if k > 0 {
        let run = course[k - 1];
        let e = told[k - 1];
        lemma_course(product, installs, seen, pkgs, course, told, k - 1);
        assert(run.expects(e));
        assert(advanced(run, e, pkgs, course[k - 1 + 1]));
        if e is Already {
            assert(course[k].rows@[0] == course[k].rows@.last());
        }
    }
}

/// A release is not found installed where one of its files was edited, and
/// deploying it again puts its content there, where it has no two different files
/// for one path.
pub proof fn law_edited_files_are_put_right(
    d: Deployment,
    files: Seq<DeployFile>,
    store: Seq<char>,
    product: ResolvedVersion,
    installs: Map<Seq<char>, Install>,
    i: int,
)
    requires
        d.files == placements(files),
        consistent(d.files),
        d.installs == installs,
        installs.dom().contains(product.id@),
        installs[product.id@]@.files == managed(files, store),
        0 <= i < files.len(),
        look(d.seen, files[i].dest_rel@) != FoundView::Content(files[i].sha256@),
    ensures
        !installed_already(product.id@, product.version@, installs, d.seen),
        found_in(d.after(), files[i].dest_rel@) == FoundView::Content(files[i].sha256@),
{
    law_files_are_written(d, i);
    assert(managed(files, store)[i].path == files[i].dest_rel@);
}

} // verus!
