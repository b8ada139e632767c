//! Where trash folders are: the user's, each volume's, or one given on the
//! command line.
use vstd::prelude::*;
use crate::path::{
    is_abs, kept_pieces, path_starts_with, pieces, spec_push, push_path, starts_with, split_path_pieces,
};
use crate::text::{dec, dec_u64, string_of};
use super::model::{TrashRoot, TrashRootView};

verus! {

/// The trash root of a trash folder: the folder and its `.DS_Store`.
pub open spec fn spec_build_root(trash_dir: Seq<char>) -> TrashRootView {
    TrashRootView { trash_dir, native_metadata_path: spec_push(trash_dir, ".DS_Store"@) }
}

/// The trash folder of user `uid` on the volume mounted at `volume`:
/// `.Trashes/<uid>` there.
pub open spec fn spec_volume_root(volume: Seq<char>, uid: u32) -> TrashRootView {
    spec_build_root(spec_push(spec_push(volume, ".Trashes"@), dec(uid as nat)))
}

/// The user's own trash folder, `.Trash` in the home folder.
pub open spec fn home_root(home: Seq<char>) -> TrashRootView {
    spec_build_root(spec_push(home, ".Trash"@))
}

/// The volume mount point a path lies under: `/Volumes/<name>` for an
/// absolute path whose first two components are `Volumes` and `<name>`.
pub open spec fn spec_volume_mount_root(path: Seq<char>) -> Option<Seq<char>> {
    let ps = pieces(path);
    let k = kept_pieces(ps, ps.len());
    if is_abs(path) && k.len() >= 2 && k[0] == "Volumes"@ {
        Some(spec_push("/Volumes"@, k[1]))
    } else {
        None
    }
}

/// The roots without repeats: a root whose folder came before is dropped.
pub open spec fn dedupe(rs: Seq<TrashRootView>, n: nat) -> Seq<TrashRootView>
    decreases n,
{
    if n == 0 {
        seq![]
    } else {
        let kept = dedupe(rs, (n - 1) as nat);
        if exists|j: int| 0 <= j < kept.len() && kept[j].trash_dir == rs[n - 1].trash_dir {
            kept
        } else {
            kept.push(rs[n - 1])
        }
    }
}

/// The roots to scan: the one given, or else the user's (with a home
/// folder), the boot volume's and each mounted volume's, without repeats.
pub open spec fn spec_discover_roots(custom: Option<Seq<char>>, home: Option<Seq<char>>, uid: u32, volumes: Seq<Seq<char>>) -> Seq<TrashRootView> {
    match custom {
        Some(c) => seq![spec_build_root(c)],
        None => {
            let first = match home {
                Some(h) => seq![home_root(h)],
                None => seq![],
            };
            let all = first + seq![spec_volume_root("/"@, uid)] + volumes.map_values(|v: Seq<char>| spec_volume_root(v, uid));
            dedupe(all, all.len())
        },
    }
}

/// The root a path is trashed into: the one given, or else the trash of the
/// volume it lies on, the user's for a path in the home folder, or the boot
/// volume's.
pub open spec fn spec_root_for_path(custom: Option<Seq<char>>, home: Option<Seq<char>>, uid: u32, path: Seq<char>) -> TrashRootView {
    match custom {
        Some(c) => spec_build_root(c),
        None => match spec_volume_mount_root(path) {
            Some(m) => spec_volume_root(m, uid),
            None => match home {
                Some(h) => if path_starts_with(path, h) {
                    home_root(h)
                } else {
                    spec_volume_root("/"@, uid)
                },
                None => spec_volume_root("/"@, uid),
            },
        },
    }
}

/// The text of an optional `&str`.
pub open spec fn opt_str(o: Option<&str>) -> Option<Seq<char>> {
    match o {
        Some(s) => Some(s@),
        None => None,
    }
}

fn build_root(trash_dir: String) -> (r: TrashRoot)
    ensures
        r@ == spec_build_root(trash_dir@),
{
    let native_metadata_path = push_path(trash_dir.as_str(), ".DS_Store");
    TrashRoot { trash_dir, native_metadata_path }
}

fn build_root_for_custom(trash_dir: &str) -> (r: TrashRoot)
    ensures
        r@ == spec_build_root(trash_dir@),
{
    build_root(trash_dir.to_owned())
}

fn volume_root(volume: &str, uid: u32) -> (r: TrashRoot)
    ensures
        r@ == spec_volume_root(volume@, uid),
{
    let trashes = push_path(volume, ".Trashes");
    let id = string_of(dec_u64(uid as u64).as_slice());
    build_root(push_path(trashes.as_str(), id.as_str()))
}

fn volume_mount_root(path: &str) -> (r: Option<String>)
    ensures
        match spec_volume_mount_root(path@) {
            Some(m) => r is Some && r->0@ == m,
            None => r is None,
        },
{
    let (rooted, kept) = split_path_pieces(path);
    if rooted && kept.len() >= 2 && kept[0] == "Volumes".to_owned() {
        Some(push_path("/Volumes", kept[1].as_str()))
    } else {
        None
    }
}

fn dedupe_roots(roots: Vec<TrashRoot>) -> (out: Vec<TrashRoot>)
    ensures
        Seq::new(out@.len(), |i: int| out@[i]@) == dedupe(
            Seq::new(roots@.len(), |i: int| roots@[i]@),
            roots@.len(),
        ),
{
    let ghost rs = Seq::new(roots@.len(), |i: int| roots@[i]@);
    let mut out: Vec<TrashRoot> = Vec::new();
    let mut i: usize = 0;
    while i < roots.len()
        invariant
            i <= roots@.len(),
            rs == Seq::new(roots@.len(), |i: int| roots@[i]@),
            Seq::new(out@.len(), |i: int| out@[i]@) == dedupe(rs, i as nat),
        decreases roots@.len() - i,
    {
        let ghost kept = Seq::new(out@.len(), |i: int| out@[i]@);
        let r = &roots[i];
        assert(rs[i as int] == r@);
        let mut seen = false;
        let mut j: usize = 0;
        while j < out.len()
            invariant
                j <= out@.len(),
                kept == Seq::new(out@.len(), |i: int| out@[i]@),
                seen == exists|k: int| 0 <= k < j && kept[k].trash_dir == r@.trash_dir,
            decreases out@.len() - j,
        {
            if out[j].trash_dir == r.trash_dir {
                assert(kept[j as int].trash_dir == r@.trash_dir);
                seen = true;
            }
            proof {
                if !seen {
                    assert forall|k: int| 0 <= k < j + 1 implies kept[k].trash_dir != r@.trash_dir by {
                        if k == j {
                            assert(kept[k] == out@[k]@);
                        }
                    }
                }
            }
            j = j + 1;
        }
        if !seen {
            let copy = r.copy();
            out.push(copy);
            assert(Seq::new(out@.len(), |i: int| out@[i]@) =~= kept.push(r@));
        }
        i = i + 1;
    }
    out
}

/// The roots to scan, given the trash folder named on the command line (if
/// any), the home folder (if known), the user id, and the folders under
/// `/Volumes`.
pub fn discover_roots(custom: Option<&str>, home: Option<&str>, uid: u32, volumes: &Vec<String>) -> (r: Vec<TrashRoot>)
    ensures
        Seq::new(r@.len(), |i: int| r@[i]@) == spec_discover_roots(
            opt_str(custom),
            opt_str(home),
            uid,
            Seq::new(volumes@.len(), |i: int| volumes@[i]@),
        ),
{
    if let Some(c) = custom {
        let mut v: Vec<TrashRoot> = Vec::new();
        v.push(build_root_for_custom(c));
        assert(Seq::new(v@.len(), |i: int| v@[i]@) =~= seq![spec_build_root(c@)]);
        return v;
    }
    let ghost vs = Seq::new(volumes@.len(), |i: int| volumes@[i]@);
    let mut roots: Vec<TrashRoot> = Vec::new();
    if let Some(h) = home {
        roots.push(build_root(push_path(h, ".Trash")));
    }
    proof {
        reveal_strlit("/");
    }
    roots.push(volume_root("/", uid));
    let ghost first = Seq::new(roots@.len(), |i: int| roots@[i]@);
    let ghost home_part = match opt_str(home) {
        Some(h) => seq![home_root(h)],
        None => Seq::<TrashRootView>::empty(),
    };
    assert(first =~= home_part + seq![spec_volume_root("/"@, uid)]);
    let mut k: usize = 0;
    while k < volumes.len()
        invariant
            k <= volumes@.len(),
            vs == Seq::new(volumes@.len(), |i: int| volumes@[i]@),
            Seq::new(roots@.len(), |i: int| roots@[i]@) == first + vs.take(k as int).map_values(|v: Seq<char>| spec_volume_root(v, uid)),
        decreases volumes@.len() - k,
    {
        let ghost before = Seq::new(roots@.len(), |i: int| roots@[i]@);
        let r = volume_root(volumes[k].as_str(), uid);
        roots.push(r);
        assert(vs.take(k + 1).map_values(|v: Seq<char>| spec_volume_root(v, uid))
            =~= vs.take(k as int).map_values(|v: Seq<char>| spec_volume_root(v, uid)).push(spec_volume_root(vs[k as int], uid)));
        assert(Seq::new(roots@.len(), |i: int| roots@[i]@) =~= before.push(r@));
        k = k + 1;
    }
    assert(vs.take(k as int) =~= vs);
    let ghost all = home_part + seq![spec_volume_root("/"@, uid)] + vs.map_values(|v: Seq<char>| spec_volume_root(v, uid));
    assert(Seq::new(roots@.len(), |i: int| roots@[i]@) =~= all);
    dedupe_roots(roots)
}

/// The root a path is trashed into, given the trash folder named on the
/// command line (if any), the home folder (if known) and the user id.
pub fn root_for_path(custom: Option<&str>, home: Option<&str>, uid: u32, path: &str) -> (r: TrashRoot)
    ensures
        r@ == spec_root_for_path(opt_str(custom), opt_str(home), uid, path@),
{
    if let Some(c) = custom {
        return build_root_for_custom(c);
    }
    if let Some(mount_root) = volume_mount_root(path) {
        return volume_root(mount_root.as_str(), uid);
    }
    proof {
        reveal_strlit("/");
    }
    if let Some(h) = home {
        if starts_with(path, h) {
            return build_root(push_path(h, ".Trash"));
        }
    }
    volume_root("/", uid)
}

} // verus!
