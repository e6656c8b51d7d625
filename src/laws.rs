use vstd::prelude::*;
use crate::model::first_unsafe;
use crate::names::{
    ends_with_slash, is_parent_segment_at, is_safe_name, joined, last_slash, lemma_joined_injective,
    lemma_last_slash_bounds, parent_path,
};
use crate::pack::{file_children, packed_entries, SourceChild, SourceTree};
use crate::unpack::{entry_steps, listed_entries, plan_of, StepView};

verus! {

/// What a path names on disk, as far as extraction is concerned.
pub enum Node {
    Dir,
    File(Seq<u8>),
}

/// Whether making the directory `p` makes `k`: `k` is `p` itself or one of
/// its ancestors, a non-empty part of `p` that a `/` of `p` ends.
pub open spec fn covers(p: Seq<char>, k: Seq<char>) -> bool {
    k == p || (0 < k.len() < p.len() && p[k.len() as int] == '/' && k == p.subrange(0, k.len() as int))
}

/// The effect of one step on a filesystem, given as a map from paths to
/// nodes: a directory is made, with every missing ancestor, only where
/// nothing stands yet; a file is written whatever stood there.
pub open spec fn apply_step(fs: Map<Seq<char>, Node>, s: StepView) -> Map<Seq<char>, Node> {
    match s {
        StepView::MakeDir(p) => Map::new(
            |k: Seq<char>| fs.contains_key(k) || covers(p, k),
            |k: Seq<char>| if fs.contains_key(k) {
                fs[k]
            } else {
                Node::Dir
            },
        ),
        StepView::WriteFile(p, d) => fs.insert(p, Node::File(d)),
    }
}

/// The effect of steps taken in order.
pub open spec fn apply_steps(fs: Map<Seq<char>, Node>, steps: Seq<StepView>) -> Map<Seq<char>, Node>
    decreases steps.len(),
{
    if steps.len() == 0 {
        fs
    } else {
        apply_step(apply_steps(fs, steps.drop_last()), steps.last())
    }
}

/// The bytes of the last write to `k` among `steps`, if any.
pub open spec fn last_write(steps: Seq<StepView>, k: Seq<char>) -> Option<Seq<u8>>
    decreases steps.len(),
{
    if steps.len() == 0 {
        None
    } else {
        match steps.last() {
            StepView::WriteFile(q, d) => if q == k {
                Some(d)
            } else {
                last_write(steps.drop_last(), k)
            },
            StepView::MakeDir(_) => last_write(steps.drop_last(), k),
        }
    }
}

/// Whether `steps` make the directory `k`, itself or as an ancestor.
pub open spec fn makes_dir(steps: Seq<StepView>, k: Seq<char>) -> bool
    decreases steps.len(),
{
    steps.len() > 0 && (match steps.last() {
        StepView::MakeDir(p) => covers(p, k),
        StepView::WriteFile(_, _) => false,
    } || makes_dir(steps.drop_last(), k))
}

/// A single path component, as a directory listing gives it.
pub open spec fn is_component(n: Seq<char>) -> bool {
    &&& n.len() > 0
    &&& forall|i: int| 0 <= i < n.len() ==> n[i] != '/'
    &&& n != seq!['.']
    &&& n != seq!['.', '.']
}

pub proof fn lemma_component_is_safe(n: Seq<char>)
    requires
        is_component(n),
    ensures
        is_safe_name(n),
        !ends_with_slash(n),
{
    assert forall|i: int| 0 <= i < n.len() implies !#[trigger] is_parent_segment_at(n, i) by {
        if is_parent_segment_at(n, i) {
            assert(i == 0);
            assert(n.len() == 2);
            assert(n =~= seq!['.', '.']);
        }
    }
}

/// What one path holds after `steps`: the last write to it wins; else a
/// directory made there is kept as whatever already stood there, or is new;
/// else the path is untouched.
pub proof fn lemma_apply_at(fs: Map<Seq<char>, Node>, steps: Seq<StepView>, k: Seq<char>)
    ensures
        last_write(steps, k) is Some ==> apply_steps(fs, steps).contains_key(k) && apply_steps(fs, steps)[k]
            == Node::File(last_write(steps, k)->0),
        last_write(steps, k) is None && makes_dir(steps, k) ==> apply_steps(fs, steps).contains_key(k)
            && apply_steps(fs, steps)[k] == (if fs.contains_key(k) {
            fs[k]
        } else {
            Node::Dir
        }),
        last_write(steps, k) is None && !makes_dir(steps, k) ==> apply_steps(fs, steps).contains_key(k)
            == fs.contains_key(k) && (fs.contains_key(k) ==> apply_steps(fs, steps)[k] == fs[k]),
    decreases steps.len(),
{
    if steps.len() > 0 {
        lemma_apply_at(fs, steps.drop_last(), k);
    }
}

/// Taking the same steps twice leaves what taking them once leaves.
pub proof fn lemma_steps_idempotent(fs: Map<Seq<char>, Node>, steps: Seq<StepView>)
    ensures
        apply_steps(apply_steps(fs, steps), steps) == apply_steps(fs, steps),
{
    let once = apply_steps(fs, steps);
    let twice = apply_steps(once, steps);
    assert forall|k: Seq<char>| #[trigger] twice.contains_key(k) == once.contains_key(k) && (once.contains_key(
        k,
    ) ==> twice[k] == once[k]) by {
        lemma_apply_at(fs, steps, k);
        lemma_apply_at(once, steps, k);
    }
    assert(twice =~= once);
}

/// Unpacking one archive into one destination twice leaves what unpacking it
/// once leaves: files are overwritten with the same bytes and directories
/// kept.
pub proof fn lemma_unpack_idempotent(archive: Seq<u8>, root: Seq<char>, fs: Map<Seq<char>, Node>)
    ensures
        ({
            let plan = plan_of(root, listed_entries(archive));
            apply_steps(apply_steps(fs, plan), plan) == apply_steps(fs, plan)
        }),
{
    lemma_steps_idempotent(fs, plan_of(root, listed_entries(archive)));
}

proof fn lemma_plan_push(root: Seq<char>, es: Seq<(Seq<char>, Seq<u8>)>, e: (Seq<char>, Seq<u8>))
    ensures
        plan_of(root, es.push(e)) == plan_of(root, es) + entry_steps(root, e),
        first_unsafe(es.push(e)) == if first_unsafe(es) >= 0 {
            first_unsafe(es)
        } else if !is_safe_name(e.0) {
            es.len() as int
        } else {
            -1
        },
{
    assert(es.push(e).drop_last() =~= es);
}

proof fn lemma_last_write_file_steps(p: Seq<StepView>, x: Seq<char>, y: Seq<char>, d: Seq<u8>, k: Seq<char>)
    ensures
        last_write(p + seq![StepView::MakeDir(x), StepView::WriteFile(y, d)], k) == if y == k {
            Some(d)
        } else {
            last_write(p, k)
        },
        makes_dir(p + seq![StepView::MakeDir(x), StepView::WriteFile(y, d)], k) == (covers(x, k) || makes_dir(
            p,
            k,
        )),
{
    let q = p + seq![StepView::MakeDir(x), StepView::WriteFile(y, d)];
    let r = p.push(StepView::MakeDir(x));
    assert(q.drop_last() =~= r);
    assert(r.drop_last() =~= p);
    assert(q.last() == StepView::WriteFile(y, d));
    assert(r.last() == StepView::MakeDir(x));
    assert(last_write(r, k) == last_write(p, k));
    assert(makes_dir(r, k) == (covers(x, k) || makes_dir(p, k)));
}

/// Packing one regular file and extracting the entries packed below `root`
/// leaves a file of the same base name holding the same bytes.
pub proof fn lemma_file_round_trip(
    name: String,
    contents: Vec<u8>,
    root: Seq<char>,
    fs: Map<Seq<char>, Node>,
)
    requires
        is_component(name@),
    ensures
        ({
            let es = packed_entries(SourceTree::File { name, contents });
            let after = apply_steps(fs, plan_of(root, es));
            &&& first_unsafe(es) < 0
            &&& after.contains_key(joined(root, name@))
            &&& after[joined(root, name@)] == Node::File(contents@)
        }),
{
    let e = (name@, contents@);
    let es = packed_entries(SourceTree::File { name, contents });
    lemma_component_is_safe(name@);
    assert(es == Seq::<(Seq<char>, Seq<u8>)>::empty().push(e));
    lemma_plan_push(root, Seq::empty(), e);
    let p = plan_of(root, es);
    lemma_last_write_file_steps(plan_of(root, Seq::empty()), parent_path(root, name@), joined(root, name@), contents@, joined(root, name@));
    lemma_apply_at(fs, p, joined(root, name@));
}

/// Children with pairwise distinct names.
pub open spec fn distinct_names(cs: Seq<SourceChild>) -> bool {
    forall|i: int, j: int| 0 <= i < j < cs.len() ==> cs[i].name@ != cs[j].name@
}

/// Children whose regular files are named by single path components.
pub open spec fn files_are_components(cs: Seq<SourceChild>) -> bool {
    forall|i: int| 0 <= i < cs.len() && (#[trigger] cs[i]).contents is Some ==> is_component(cs[i].name@)
}

proof fn lemma_children_plan(cs: Seq<SourceChild>, root: Seq<char>)
    requires
        distinct_names(cs),
        files_are_components(cs),
    ensures
        first_unsafe(file_children(cs)) < 0,
        forall|j: int|
            0 <= j < cs.len() && (#[trigger] cs[j]).contents is Some ==> last_write(
                plan_of(root, file_children(cs)),
                joined(root, cs[j].name@),
            ) == Some(cs[j].contents->0@),
        forall|k: Seq<char>|
            (#[trigger] last_write(plan_of(root, file_children(cs)), k)) is Some ==> exists|j: int|
                0 <= j < cs.len() && (#[trigger] cs[j]).contents is Some && k == joined(root, cs[j].name@),
        forall|i: int|
            0 <= i < file_children(cs).len() ==> exists|j: int|
                0 <= j < cs.len() && (#[trigger] cs[j]).contents is Some && #[trigger] file_children(cs)[i] == (
                cs[j].name@,
                cs[j].contents->0@,
            ),
    decreases cs.len(),
{
    if cs.len() > 0 {
        let rest = cs.drop_last();
        let c = cs.last();
        let n = cs.len() - 1;
        assert(forall|j: int| 0 <= j < n ==> rest[j] == cs[j]);
        lemma_children_plan(rest, root);
        let fc = file_children(rest);
        let p = plan_of(root, fc);
        match c.contents {
            None => {
                assert(file_children(cs) == fc);
                assert forall|k: Seq<char>| (#[trigger] last_write(plan_of(root, file_children(cs)), k)) is Some
                    implies exists|j: int| 0 <= j < cs.len() && (#[trigger] cs[j]).contents is Some && k == joined(root, cs[j].name@) by {
                    let j = choose|j: int| 0 <= j < rest.len() && (#[trigger] rest[j]).contents is Some && k == joined(root, rest[j].name@);
                    assert(cs[j] == rest[j]);
                }
                assert forall|i: int| 0 <= i < file_children(cs).len() implies exists|j: int|
                    0 <= j < cs.len() && (#[trigger] cs[j]).contents is Some && #[trigger] file_children(cs)[i] == (
                    cs[j].name@,
                    cs[j].contents->0@,
                ) by {
                    let j = choose|j: int| 0 <= j < rest.len() && (#[trigger] rest[j]).contents is Some && #[trigger] fc[i] == (rest[j].name@, rest[j].contents->0@);
                    assert(cs[j] == rest[j]);
                }
            },
            Some(d) => {
                let e = (c.name@, d@);
                assert(file_children(cs) == fc.push(e));
                lemma_component_is_safe(c.name@);
                lemma_plan_push(root, fc, e);
                assert(entry_steps(root, e) == seq![StepView::MakeDir(parent_path(root, c.name@)), StepView::WriteFile(joined(root, c.name@), d@)]);
                assert forall|k: Seq<char>| last_write(plan_of(root, file_children(cs)), k) == if joined(root, c.name@) == k {
                    Some(d@)
                } else {
                    last_write(p, k)
                } by {
                    lemma_last_write_file_steps(p, parent_path(root, c.name@), joined(root, c.name@), d@, k);
                }
                assert forall|j: int| 0 <= j < cs.len() && (#[trigger] cs[j]).contents is Some implies last_write(
                    plan_of(root, file_children(cs)),
                    joined(root, cs[j].name@),
                ) == Some(cs[j].contents->0@) by {
                    if j < n {
                        assert(cs[j] == rest[j]);
                        if joined(root, c.name@) == joined(root, cs[j].name@) {
                            lemma_joined_injective(root, c.name@, cs[j].name@);
                        }
                    }
                }
                assert forall|k: Seq<char>| (#[trigger] last_write(plan_of(root, file_children(cs)), k)) is Some
                    implies exists|j: int| 0 <= j < cs.len() && (#[trigger] cs[j]).contents is Some && k == joined(root, cs[j].name@) by {
                    if k == joined(root, c.name@) {
                        assert(cs[n] == c);
                    } else {
                        assert(last_write(p, k) is Some);
                        let j = choose|j: int| 0 <= j < rest.len() && (#[trigger] rest[j]).contents is Some && k == joined(root, rest[j].name@);
                        assert(cs[j] == rest[j]);
                    }
                }
                assert forall|i: int| 0 <= i < file_children(cs).len() implies exists|j: int|
                    0 <= j < cs.len() && (#[trigger] cs[j]).contents is Some && #[trigger] file_children(cs)[i] == (
                    cs[j].name@,
                    cs[j].contents->0@,
                ) by {
                    if i < fc.len() {
                        let j = choose|j: int| 0 <= j < rest.len() && (#[trigger] rest[j]).contents is Some && #[trigger] fc[i] == (rest[j].name@, rest[j].contents->0@);
                        assert(cs[j] == rest[j]);
                    } else {
                        assert(cs[n] == c);
                    }
                }
            },
        }
    } else {
        let p = plan_of(root, file_children(cs));
        assert(file_children(cs) == Seq::<(Seq<char>, Seq<u8>)>::empty());
        assert(p == seq![StepView::MakeDir(root)]);
        assert(p.drop_last() =~= Seq::<StepView>::empty());
        assert forall|k: Seq<char>| #[trigger] last_write(p, k) is None by {
            assert(p.last() == StepView::MakeDir(root));
            assert(last_write(p.drop_last(), k) is None);
        }
    }
}

/// Whether the name `n` lies below the directory named `d`.
pub open spec fn is_below(d: Seq<char>, n: Seq<char>) -> bool {
    n.len() > d.len() && n.subrange(0, d.len() as int) == d && n[d.len() as int] == '/'
}

/// Packing a directory whose children have distinct names and extracting
/// the entries packed below `root` leaves each regular file under its name
/// with the same bytes; nothing else is written, and only the regular files
/// are entries: subdirectories are never represented.
pub proof fn lemma_directory_round_trip(children: Vec<SourceChild>, root: Seq<char>, fs: Map<Seq<char>, Node>)
    requires
        distinct_names(children@),
        files_are_components(children@),
    ensures
        ({
            let es = packed_entries(SourceTree::Directory { children });
            let plan = plan_of(root, es);
            let after = apply_steps(fs, plan);
            &&& first_unsafe(es) < 0
            &&& forall|j: int|
                0 <= j < children@.len() && (#[trigger] children@[j]).contents is Some ==> after.contains_key(
                    joined(root, children@[j].name@),
                ) && after[joined(root, children@[j].name@)] == Node::File(children@[j].contents->0@)
            &&& forall|k: Seq<char>|
                (#[trigger] last_write(plan, k)) is Some ==> exists|j: int|
                    0 <= j < children@.len() && (#[trigger] children@[j]).contents is Some && k == joined(
                        root,
                        children@[j].name@,
                    )
            &&& forall|i: int|
                0 <= i < es.len() ==> exists|j: int|
                    0 <= j < children@.len() && (#[trigger] children@[j]).contents is Some && #[trigger] es[i] == (
                    children@[j].name@,
                    children@[j].contents->0@,
                )
            &&& forall|i: int, j: int|
                0 <= i < es.len() && 0 <= j < children@.len() && (#[trigger] children@[j]).contents is None ==> (
                #[trigger] es[i]).0 != children@[j].name@ && !is_below(children@[j].name@, es[i].0)
        }),
{
    let es = packed_entries(SourceTree::Directory { children });
    lemma_children_plan(children@, root);
    assert forall|i: int, j: int|
        0 <= i < es.len() && 0 <= j < children@.len() && (#[trigger] children@[j]).contents is None implies (
        #[trigger] es[i]).0 != children@[j].name@ && !is_below(children@[j].name@, es[i].0) by {
        let m = choose|m: int|
            0 <= m < children@.len() && (#[trigger] children@[m]).contents is Some && #[trigger] es[i] == (
            children@[m].name@,
            children@[m].contents->0@,
        );
        assert(m != j);
        assert(is_component(children@[m].name@));
        if m < j {
            assert(children@[m].name@ != children@[j].name@);
        } else {
            assert(children@[j].name@ != children@[m].name@);
        }
    }
    assert forall|j: int| 0 <= j < children@.len() && (#[trigger] children@[j]).contents is Some implies apply_steps(
        fs,
        plan_of(root, es),
    ).contains_key(joined(root, children@[j].name@)) && apply_steps(fs, plan_of(root, es))[joined(
        root,
        children@[j].name@,
    )] == Node::File(children@[j].contents->0@) by {
        lemma_apply_at(fs, plan_of(root, es), joined(root, children@[j].name@));
    }
}

/// A file entry whose name holds a `/` is extracted into the nested
/// directory that its name gives: that directory is made (where nothing
/// stands there yet), and the file is written below it under the last
/// component of its name.
pub proof fn lemma_nested_entry(root: Seq<char>, name: Seq<char>, data: Seq<u8>, fs: Map<Seq<char>, Node>)
    requires
        is_safe_name(name),
        !ends_with_slash(name),
        last_slash(name) >= 0,
    ensures
        ({
            let dir = parent_path(root, name);
            let path = joined(root, name);
            let after = apply_steps(fs, entry_steps(root, (name, data)));
            &&& dir == joined(root, name.subrange(0, last_slash(name)))
            &&& path == dir + seq!['/'] + name.subrange(last_slash(name) + 1, name.len() as int)
            &&& forall|j: int|
                0 < j <= dir.len() && (j == dir.len() || dir[j] == '/') ==> after.contains_key(
                    #[trigger] dir.subrange(0, j),
                ) && (!fs.contains_key(dir.subrange(0, j)) ==> after[dir.subrange(0, j)] == Node::Dir)
            &&& after.contains_key(path)
            &&& after[path] == Node::File(data)
        }),
{
    lemma_last_slash_bounds(name);
    let ls = last_slash(name);
    let dir = parent_path(root, name);
    let path = joined(root, name);
    let head = name.subrange(0, ls);
    let tail = name.subrange(ls + 1, name.len() as int);
    assert(name =~= head + seq!['/'] + tail);
    assert(path =~= dir + seq!['/'] + tail);
    let steps = entry_steps(root, (name, data));
    assert(steps =~= Seq::<StepView>::empty() + seq![StepView::MakeDir(dir), StepView::WriteFile(path, data)]);
    lemma_last_write_file_steps(Seq::empty(), dir, path, data, path);
    assert(dir.len() < path.len());
    lemma_apply_at(fs, steps, path);
    assert forall|j: int| 0 < j <= dir.len() && (j == dir.len() || dir[j] == '/') implies apply_steps(
        fs,
        steps,
    ).contains_key(#[trigger] dir.subrange(0, j)) && (!fs.contains_key(dir.subrange(0, j)) ==> apply_steps(
        fs,
        steps,
    )[dir.subrange(0, j)] == Node::Dir) by {
        let k = dir.subrange(0, j);
        if j == dir.len() {
            assert(k =~= dir);
        }
        assert(covers(dir, k));
        lemma_last_write_file_steps(Seq::empty(), dir, path, data, k);
        assert(!makes_dir(Seq::<StepView>::empty(), k));
        lemma_apply_at(fs, steps, k);
    }
}

/// Directory-marker entries make their directories below `root` and write
/// no file: every file after extraction either stood there before, with the
/// same bytes, or is the payload of an entry that is not a marker.
pub proof fn lemma_directory_markers(root: Seq<char>, es: Seq<(Seq<char>, Seq<u8>)>, fs: Map<Seq<char>, Node>)
    ensures
        ({
            let after = apply_steps(fs, plan_of(root, es));
            &&& forall|i: int|
                0 <= i < es.len() && ends_with_slash(#[trigger] es[i].0) ==> after.contains_key(joined(root, es[i].0))
                    && (!fs.contains_key(joined(root, es[i].0)) ==> after[joined(root, es[i].0)] == Node::Dir)
            &&& forall|k: Seq<char>|
                #[trigger] after.contains_key(k) && after[k] is File ==> (fs.contains_key(k) && fs[k] == after[k])
                    || exists|i: int| 0 <= i < es.len() && !ends_with_slash(#[trigger] es[i].0) && k == joined(root, es[i].0)
        }),
{
    lemma_marker_plan(root, es);
    let plan = plan_of(root, es);
    let after = apply_steps(fs, plan);
    assert forall|i: int| 0 <= i < es.len() && ends_with_slash(#[trigger] es[i].0) implies after.contains_key(
        joined(root, es[i].0),
    ) && (!fs.contains_key(joined(root, es[i].0)) ==> after[joined(root, es[i].0)] == Node::Dir) by {
        let k = joined(root, es[i].0);
        if last_write(plan, k) is Some {
            let j = choose|j: int| 0 <= j < es.len() && !ends_with_slash(#[trigger] es[j].0) && k == joined(root, es[j].0);
            lemma_joined_injective(root, es[i].0, es[j].0);
        }
        lemma_apply_at(fs, plan, k);
    }
    assert forall|k: Seq<char>| #[trigger] after.contains_key(k) && after[k] is File implies (fs.contains_key(k)
        && fs[k] == after[k]) || exists|i: int| 0 <= i < es.len() && !ends_with_slash(#[trigger] es[i].0) && k == joined(root, es[i].0) by {
        lemma_apply_at(fs, plan, k);
    }
}

proof fn lemma_marker_plan(root: Seq<char>, es: Seq<(Seq<char>, Seq<u8>)>)
    ensures
        forall|k: Seq<char>|
            (#[trigger] last_write(plan_of(root, es), k)) is Some ==> exists|i: int|
                0 <= i < es.len() && !ends_with_slash(#[trigger] es[i].0) && k == joined(root, es[i].0),
        forall|i: int|
            0 <= i < es.len() && ends_with_slash(#[trigger] es[i].0) ==> makes_dir(plan_of(root, es), joined(root, es[i].0)),
    decreases es.len(),
{
    let p = plan_of(root, es);
    if es.len() == 0 {
        assert(p.drop_last() =~= Seq::<StepView>::empty());
        assert forall|k: Seq<char>| #[trigger] last_write(p, k) is None by {
            assert(last_write(p.drop_last(), k) is None);
        }
    } else {
        let rest = es.drop_last();
        let e = es.last();
        let n = es.len() - 1;
        assert(forall|i: int| 0 <= i < rest.len() ==> rest[i] == es[i]);
        lemma_marker_plan(root, rest);
        let q = plan_of(root, rest);
        assert(p == q + entry_steps(root, e));
        if ends_with_slash(e.0) {
            assert(p == q + seq![StepView::MakeDir(joined(root, e.0))]);
            assert(p.drop_last() =~= q);
            assert forall|k: Seq<char>| (#[trigger] last_write(p, k)) is Some implies exists|i: int|
                0 <= i < es.len() && !ends_with_slash(#[trigger] es[i].0) && k == joined(root, es[i].0) by {
                assert(last_write(q, k) is Some);
                let i = choose|i: int| 0 <= i < rest.len() && !ends_with_slash(#[trigger] rest[i].0) && k == joined(root, rest[i].0);
                assert(es[i] == rest[i]);
            }
            assert forall|i: int| 0 <= i < es.len() && ends_with_slash(#[trigger] es[i].0) implies makes_dir(p, joined(root, es[i].0)) by {
                if i < n {
                    assert(es[i] == rest[i]);
                    assert(makes_dir(q, joined(root, rest[i].0)));
                } else {
                    assert(es[i] == e);
                    assert(covers(joined(root, e.0), joined(root, e.0)));
                }
            }
        } else {
            let x = parent_path(root, e.0);
            let y = joined(root, e.0);
            assert forall|k: Seq<char>| (#[trigger] last_write(p, k)) is Some implies exists|i: int|
                0 <= i < es.len() && !ends_with_slash(#[trigger] es[i].0) && k == joined(root, es[i].0) by {
                lemma_last_write_file_steps(q, x, y, e.1, k);
                if k == y {
                    assert(es[n] == e);
                } else {
                    assert(last_write(q, k) is Some);
                    let i = choose|i: int| 0 <= i < rest.len() && !ends_with_slash(#[trigger] rest[i].0) && k == joined(root, rest[i].0);
                    assert(es[i] == rest[i]);
                }
            }
            assert forall|i: int| 0 <= i < es.len() && ends_with_slash(#[trigger] es[i].0) implies makes_dir(p, joined(root, es[i].0)) by {
                lemma_last_write_file_steps(q, x, y, e.1, joined(root, es[i].0));
                if i < n {
                    assert(es[i] == rest[i]);
                    assert(makes_dir(q, joined(root, rest[i].0)));
                } else {
                    assert(es[i] == e);
                }
            }
        }
    }
}

} // verus!
