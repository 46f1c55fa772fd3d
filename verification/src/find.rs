//! Resource requests and the constraint-based allocation engine.
//!
//! The engine walks a snapshot of devices in their given order and resolves
//! an unnamed request to the first eligible device files, greedily, one unit
//! at a time.  Its contract states the result exactly, as a recursive
//! specification of the same greedy walk over the snapshot's view; the
//! all-or-nothing and no-double-booking laws are proved of that
//! specification below.

use vstd::prelude::*;

use crate::arch::Arch;
use crate::device::{
    CoreStatus, DeviceFile, DeviceFileView, DeviceMode, DeviceView, DeviceWithStatus,
    DeviceWithStatusView,
};
use crate::error::DeviceError;

verus! {

/// A single core or a contiguous core range, for a named request.
#[derive(Clone, Copy, Debug, PartialEq, Eq, Structural)]
pub enum CoreId {
    Id(u8),
    Range(u8, u8),
}

impl CoreId {
    /// A well-formed core id: a range runs from a lower to a higher index.
    /// Parsing yields only well-formed values.
    pub open spec fn wf(self) -> bool {
        match self {
            CoreId::Id(_) => true,
            CoreId::Range(a, b) => a <= b,
        }
    }
}

/// A resource need: either a specific core (range) on a named device, or a
/// number of units of an architecture at a given exclusivity mode.
#[derive(Clone, Copy, Debug, PartialEq, Eq, Structural)]
pub enum DeviceConfig {
    Named { device_id: u8, core_id: CoreId },
    Unnamed { arch: Arch, mode: DeviceMode, count: u8 },
}

/// A fluent builder for [`DeviceConfig`] values scoped to Warboy NPUs.
#[derive(Clone, Copy, Debug, PartialEq, Eq, Structural)]
pub struct WarboyConfigBuilder {
    pub arch: Arch,
    pub mode: DeviceMode,
    pub count: u8,
}

impl DeviceConfig {
    /// Returns a builder associated with Warboy NPUs: mode `Single`,
    /// count 1 by default.
    pub fn warboy() -> (r: WarboyConfigBuilder)
        ensures
            r == (WarboyConfigBuilder {
                arch: Arch::Warboy,
                mode: DeviceMode::Single,
                count: 1u8,
            }),
    {
        WarboyConfigBuilder { arch: Arch::Warboy, mode: DeviceMode::Single, count: 1 }
    }
}

impl Default for DeviceConfig {
    /// The default request: one fused Warboy unit.
    fn default() -> (r: Self)
        ensures
            r == (DeviceConfig::Unnamed {
                arch: Arch::Warboy,
                mode: DeviceMode::Fusion,
                count: 1u8,
            }),
    {
        DeviceConfig::warboy().fused().count(1)
    }
}

impl WarboyConfigBuilder {
    /// Selects whole-device allocation.
    pub fn multicore(self) -> (r: Self)
        ensures
            r == (WarboyConfigBuilder { mode: DeviceMode::MultiCore, ..self }),
    {
        WarboyConfigBuilder { mode: DeviceMode::MultiCore, ..self }
    }

    /// Selects fused-pair allocation.
    pub fn fused(self) -> (r: Self)
        ensures
            r == (WarboyConfigBuilder { mode: DeviceMode::Fusion, ..self }),
    {
        WarboyConfigBuilder { mode: DeviceMode::Fusion, ..self }
    }

    /// Finishes the builder with the given number of units.
    pub fn count(self, count: u8) -> (r: DeviceConfig)
        ensures
            r == (DeviceConfig::Unnamed { arch: self.arch, mode: self.mode, count }),
    {
        DeviceConfig::Unnamed { arch: self.arch, mode: self.mode, count }
    }

    /// Finishes the builder with its current settings.
    pub fn build(self) -> (r: DeviceConfig)
        ensures
            r == (DeviceConfig::Unnamed { arch: self.arch, mode: self.mode, count: self.count }),
    {
        DeviceConfig::Unnamed { arch: self.arch, mode: self.mode, count: self.count }
    }
}

/// The views of a snapshot's devices, in their given order.
pub open spec fn snapshot_views(devices: Seq<DeviceWithStatus>) -> Seq<DeviceWithStatusView> {
    devices.map_values(|d: DeviceWithStatus| d@)
}

/// The set of core indices among the first `n` entries of a sequence.
pub open spec fn cores_set_upto(s: Seq<u8>, n: int) -> Set<u8>
    decreases n,
{
    if n <= 0 {
        Set::empty()
    } else {
        cores_set_upto(s, n - 1).insert(s[n - 1])
    }
}

/// The set of core indices a sequence holds.
pub open spec fn cores_set(s: Seq<u8>) -> Set<u8> {
    cores_set_upto(s, s.len() as int)
}

/// A core is in the set of a sequence exactly when the sequence holds it.
pub proof fn lemma_cores_set_contains(s: Seq<u8>, n: int, c: u8)
    requires
        n <= s.len(),
    ensures
        cores_set_upto(s, n).contains(c) <==> exists|k: int| 0 <= k < n && s[k] == c,
    decreases n,
{
    if n > 0 {
        lemma_cores_set_contains(s, n - 1, c);
        if cores_set_upto(s, n).contains(c) {
            if s[n - 1] != c {
                let k = choose|k: int| 0 <= k < n - 1 && s[k] == c;
                assert(0 <= k < n && s[k] == c);
            }
        } else {
            assert(s[n - 1] != c);
        }
    }
}

/// The cores among the first `n` snapshot entries of a device whose status
/// is anything but `Available`.
pub open spec fn occupied_upto(sts: Seq<(u8, CoreStatus)>, n: int) -> Set<u8>
    decreases n,
{
    if n <= 0 {
        Set::empty()
    } else if sts[n - 1].1 != CoreStatus::Available {
        occupied_upto(sts, n - 1).insert(sts[n - 1].0)
    } else {
        occupied_upto(sts, n - 1)
    }
}

/// The cores of a device that its snapshot reports as anything but
/// `Available`; they seed the device's claimed set.
pub open spec fn occupied_cores(d: DeviceWithStatusView) -> Set<u8> {
    occupied_upto(d.statuses, d.statuses.len() as int)
}

/// The claimed set of every device before any unit is placed.
pub open spec fn initial_claims(ds: Seq<DeviceWithStatusView>) -> Seq<Set<u8>> {
    ds.map_values(|d: DeviceWithStatusView| occupied_cores(d))
}

/// Whether a device file can serve a unit: it has the requested mode and
/// none of its cores is claimed.
pub open spec fn file_fits(f: DeviceFileView, claimed: Set<u8>, mode: DeviceMode) -> bool {
    &&& f.mode == mode
    &&& forall|k: int| 0 <= k < f.core_indices.len() ==> !claimed.contains(f.core_indices[k])
}

/// The first file from position `j` on that can serve a unit, if any.
pub open spec fn first_fit_file(
    files: Seq<DeviceFileView>,
    claimed: Set<u8>,
    mode: DeviceMode,
    j: int,
) -> Option<int>
    decreases files.len() - j when 0 <= j <= files.len()
{
    if j < 0 || j >= files.len() {
        None
    } else if file_fits(files[j], claimed, mode) {
        Some(j)
    } else {
        first_fit_file(files, claimed, mode, j + 1)
    }
}

/// Whether a device can serve a unit: matching architecture, a wholly free
/// device for `MultiCore` requests, and some file that fits.
pub open spec fn device_usable(
    d: DeviceWithStatusView,
    claimed: Set<u8>,
    arch: Arch,
    mode: DeviceMode,
) -> bool {
    &&& d.device.arch == arch
    &&& mode == DeviceMode::MultiCore ==> claimed.is_empty()
    &&& first_fit_file(d.device.dev_files, claimed, mode, 0) is Some
}

/// The first device from position `i` on that can serve a unit, if any.
pub open spec fn first_fit_device(
    ds: Seq<DeviceWithStatusView>,
    claims: Seq<Set<u8>>,
    arch: Arch,
    mode: DeviceMode,
    i: int,
) -> Option<int>
    decreases ds.len() - i when 0 <= i <= ds.len()
{
    if i < 0 || i >= ds.len() {
        None
    } else if device_usable(ds[i], claims[i], arch, mode) {
        Some(i)
    } else {
        first_fit_device(ds, claims, arch, mode, i + 1)
    }
}

/// A device's claimed set after a file is allocated on it: the file's cores,
/// and — for a file standing for the whole device — every core of the
/// device.
pub open spec fn claims_after(d: DeviceView, f: DeviceFileView, claimed: Set<u8>) -> Set<u8> {
    if f.is_multicore {
        claimed.union(cores_set(f.core_indices)).union(cores_set(d.cores))
    } else {
        claimed.union(cores_set(f.core_indices))
    }
}

/// The greedy allocation: place `n` units, each on the first usable device's
/// first fitting file, claiming its cores; `None` when some unit cannot be
/// placed.  Each trace entry pairs the chosen device's position with the
/// chosen file.
pub open spec fn greedy_alloc(
    ds: Seq<DeviceWithStatusView>,
    claims: Seq<Set<u8>>,
    arch: Arch,
    mode: DeviceMode,
    n: nat,
) -> Option<Seq<(int, DeviceFileView)>>
    decreases n,
{
    if n == 0 {
        Some(Seq::empty())
    } else {
        match first_fit_device(ds, claims, arch, mode, 0) {
            None => None,
            Some(i) => match first_fit_file(ds[i].device.dev_files, claims[i], mode, 0) {
                None => None,
                Some(j) => {
                    let f = ds[i].device.dev_files[j];
                    match greedy_alloc(
                        ds,
                        claims.update(i, claims_after(ds[i].device, f, claims[i])),
                        arch,
                        mode,
                        (n - 1) as nat,
                    ) {
                        None => None,
                        Some(rest) => Some(seq![(i, f)] + rest),
                    }
                },
            },
        }
    }
}

/// The trace of the whole allocation for an unnamed request, starting from
/// the snapshot's own occupancy.
pub open spec fn allocation_trace(
    ds: Seq<DeviceWithStatusView>,
    arch: Arch,
    mode: DeviceMode,
    count: nat,
) -> Option<Seq<(int, DeviceFileView)>> {
    greedy_alloc(ds, initial_claims(ds), arch, mode, count)
}

/// What an unnamed request yields: the traced files in order, or nothing at
/// all when any unit cannot be placed.
pub open spec fn allocation_files(
    ds: Seq<DeviceWithStatusView>,
    arch: Arch,
    mode: DeviceMode,
    count: nat,
) -> Seq<DeviceFileView> {
    match allocation_trace(ds, arch, mode, count) {
        None => Seq::empty(),
        Some(tr) => tr.map_values(|e: (int, DeviceFileView)| e.1),
    }
}

/// Whether a 256-entry bit row holds exactly the claimed set `s`.
spec fn row_models(row: Seq<bool>, s: Set<u8>) -> bool {
    &&& row.len() == 256
    &&& forall|c: u8| row[c as int] == s.contains(c)
}

/// A row with no core claimed.
fn empty_row() -> (r: Vec<bool>)
    ensures
        row_models(r@, Set::empty()),
{
    let mut r: Vec<bool> = Vec::new();
    let mut i: usize = 0;
    while i < 256
        invariant
            r@.len() == i,
            i <= 256,
            forall|k: int| 0 <= k < i ==> r@[k] == false,
        decreases 256 - i,
    {
        r.push(false);
        i = i + 1;
    }
    r
}

/// Whether no core at all is claimed in the row.
fn row_is_clear(row: &Vec<bool>, Ghost(s): Ghost<Set<u8>>) -> (b: bool)
    requires
        row_models(row@, s),
    ensures
        b == s.is_empty(),
{
    let mut i: usize = 0;
    while i < 256
        invariant
            i <= 256,
            row_models(row@, s),
            forall|k: int| 0 <= k < i ==> !row@[k],
        decreases 256 - i,
    {
        if row[i] {
            proof {
                assert(s.contains(i as u8));
                assert(!s.is_empty());
            }
            return false;
        }
        i = i + 1;
    }
    proof {
        assert forall|c: u8| !s.contains(c) by {
            assert(!row@[c as int]);
        }
        assert(s =~= Set::empty());
    }
    true
}

/// Whether none of the given cores is claimed in the row.
fn cores_fit(row: &Vec<bool>, cores: &Vec<u8>, Ghost(s): Ghost<Set<u8>>) -> (b: bool)
    requires
        row_models(row@, s),
    ensures
        b == (forall|k: int| 0 <= k < cores@.len() ==> !s.contains(cores@[k])),
{
    let mut i: usize = 0;
    while i < cores.len()
        invariant
            i <= cores@.len(),
            row_models(row@, s),
            forall|k: int| 0 <= k < i ==> !s.contains(cores@[k]),
        decreases cores@.len() - i,
    {
        let c = cores[i];
        if row[c as usize] {
            return false;
        }
        i = i + 1;
    }
    true
}

/// Marks one core as claimed in the row.
fn set_row_core(row: &mut Vec<bool>, c: u8, Ghost(s): Ghost<Set<u8>>)
    requires
        row_models(old(row)@, s),
    ensures
        row_models(final(row)@, s.insert(c)),
{
    row.set(c as usize, true);
    proof {
        assert forall|c2: u8| row@[c2 as int] == s.insert(c).contains(c2) by {
            if c2 != c {
                assert(row@[c2 as int] == old(row)@[c2 as int]);
                assert(old(row)@[c2 as int] == s.contains(c2));
            }
        }
    }
}

/// Marks the given cores as claimed in the row.
fn claim_cores(row: &mut Vec<bool>, cores: &Vec<u8>, Ghost(s): Ghost<Set<u8>>)
    requires
        row_models(old(row)@, s),
    ensures
        row_models(final(row)@, s.union(cores_set(cores@))),
{
    let ghost mut claimed: Set<u8> = s;
    let mut i: usize = 0;
    while i < cores.len()
        invariant
            i <= cores@.len(),
            row_models(row@, claimed),
            claimed == s.union(cores_set_upto(cores@, i as int)),
        decreases cores@.len() - i,
    {
        let c = cores[i];
        set_row_core(row, c, Ghost(claimed));
        proof {
            assert(s.union(cores_set_upto(cores@, i as int)).insert(c) =~= s.union(
                cores_set_upto(cores@, i + 1),
            ));
            claimed = claimed.insert(c);
        }
        i = i + 1;
    }
    proof {
        assert(s.union(cores_set_upto(cores@, 0)) =~= s);
    }
}

/// Finds the first device, in snapshot order, that can serve a unit, and the
/// first of its files that fits — the pair the greedy specification picks.
#[verifier::loop_isolation(false)]
fn pick_one(
    devices: &Vec<DeviceWithStatus>,
    rows: &Vec<Vec<bool>>,
    arch: Arch,
    mode: DeviceMode,
    Ghost(cl): Ghost<Seq<Set<u8>>>,
) -> (r: Option<(usize, usize)>)
    requires
        rows@.len() == devices@.len(),
        cl.len() == devices@.len(),
        forall|i: int| 0 <= i < devices@.len() ==> row_models(#[trigger] rows@[i]@, cl[i]),
    ensures
        r is None ==> first_fit_device(snapshot_views(devices@), cl, arch, mode, 0) is None,
        r matches Some((i, j)) ==> {
            &&& (i as int) < devices@.len()
            &&& first_fit_device(snapshot_views(devices@), cl, arch, mode, 0) == Some(i as int)
            &&& first_fit_file(
                snapshot_views(devices@)[i as int].device.dev_files,
                cl[i as int],
                mode,
                0,
            ) == Some(j as int)
        },
{
    let ghost ds = snapshot_views(devices@);
    let n = devices.len();
    proof {
        assert(ds.len() == devices@.len());
    }
    let mut di: usize = 0;
    while di < n
        invariant
            di <= n,
            n == devices@.len(),
            ds == snapshot_views(devices@),
            ds.len() == n,
            rows@.len() == n,
            cl.len() == n,
            forall|i: int| 0 <= i < n ==> row_models(#[trigger] rows@[i]@, cl[i]),
            first_fit_device(ds, cl, arch, mode, 0) == first_fit_device(
                ds,
                cl,
                arch,
                mode,
                di as int,
            ),
        decreases n - di,
    {
        proof {
            assert(ds[di as int] == devices@[di as int]@);
        }
        let dev = &devices[di];
        if dev.device.arch == arch {
            let blocked = mode == DeviceMode::MultiCore && !row_is_clear(
                &rows[di],
                Ghost(cl[di as int]),
            );
            if !blocked {
                let files = &dev.device.dev_files;
                let ghost fviews = ds[di as int].device.dev_files;
                proof {
                    assert(fviews == files@.map_values(|f: DeviceFile| f@));
                }
                let mut fj: usize = 0;
                while fj < files.len()
                    invariant
                        fj <= files@.len(),
                        fviews == files@.map_values(|f: DeviceFile| f@),
                        fviews.len() == files@.len(),
                        di < n,
                        n == devices@.len(),
                        rows@.len() == n,
                        cl.len() == n,
                        forall|i: int| 0 <= i < n ==> row_models(#[trigger] rows@[i]@, cl[i]),
                        first_fit_file(fviews, cl[di as int], mode, 0) == first_fit_file(
                            fviews,
                            cl[di as int],
                            mode,
                            fj as int,
                        ),
                    decreases files@.len() - fj,
                {
                    let df = &files[fj];
                    proof {
                        assert(fviews[fj as int] == files@[fj as int]@);
                    }
                    if df.mode == mode {
                        if cores_fit(&rows[di], &df.core_indices, Ghost(cl[di as int])) {
                            proof {
                                assert(file_fits(fviews[fj as int], cl[di as int], mode));
                                assert(first_fit_file(fviews, cl[di as int], mode, fj as int)
                                    == Some(fj as int));
                                assert(device_usable(ds[di as int], cl[di as int], arch, mode));
                                assert(first_fit_device(ds, cl, arch, mode, di as int) == Some(
                                    di as int,
                                ));
                            }
                            return Some((di, fj));
                        }
                    }
                    proof {
                        assert(!file_fits(fviews[fj as int], cl[di as int], mode));
                    }
                    fj = fj + 1;
                }
                proof {
                    assert(first_fit_file(fviews, cl[di as int], mode, fj as int) is None);
                }
            } else {
                proof {
                    assert(!device_usable(ds[di as int], cl[di as int], arch, mode));
                }
            }
        }
        proof {
            assert(!device_usable(ds[di as int], cl[di as int], arch, mode));
            assert(first_fit_device(ds, cl, arch, mode, di as int) == first_fit_device(
                ds,
                cl,
                arch,
                mode,
                di as int + 1,
            ));
        }
        di = di + 1;
    }
    None
}

/// What a successful file search implies: the index is in range and the file
/// there fits.
proof fn lemma_first_fit_file_props(
    files: Seq<DeviceFileView>,
    claimed: Set<u8>,
    mode: DeviceMode,
    j0: int,
)
    requires
        0 <= j0 <= files.len(),
        first_fit_file(files, claimed, mode, j0) is Some,
    ensures
        ({
            let j = first_fit_file(files, claimed, mode, j0)->Some_0;
            &&& j0 <= j < files.len()
            &&& file_fits(files[j], claimed, mode)
        }),
    decreases files.len() - j0,
{
    if j0 < files.len() && !file_fits(files[j0], claimed, mode) {
        lemma_first_fit_file_props(files, claimed, mode, j0 + 1);
    }
}

/// What a successful device search implies: the index is in range and the
/// device there is usable.
proof fn lemma_first_fit_device_props(
    ds: Seq<DeviceWithStatusView>,
    claims: Seq<Set<u8>>,
    arch: Arch,
    mode: DeviceMode,
    i0: int,
)
    requires
        0 <= i0 <= ds.len(),
        first_fit_device(ds, claims, arch, mode, i0) is Some,
    ensures
        ({
            let i = first_fit_device(ds, claims, arch, mode, i0)->Some_0;
            &&& i0 <= i < ds.len()
            &&& device_usable(ds[i], claims[i], arch, mode)
        }),
    decreases ds.len() - i0,
{
    if i0 < ds.len() && !device_usable(ds[i0], claims[i0], arch, mode) {
        lemma_first_fit_device_props(ds, claims, arch, mode, i0 + 1);
    }
}

/// Whether two core-index sequences have no index in common.
pub open spec fn seqs_disjoint(a: Seq<u8>, b: Seq<u8>) -> bool {
    forall|k: int, l: int| 0 <= k < a.len() && 0 <= l < b.len() ==> a[k] != b[l]
}

/// A successful greedy allocation places exactly one file per unit.
proof fn lemma_greedy_len(
    ds: Seq<DeviceWithStatusView>,
    claims: Seq<Set<u8>>,
    arch: Arch,
    mode: DeviceMode,
    n: nat,
)
    requires
        greedy_alloc(ds, claims, arch, mode, n) is Some,
    ensures
        greedy_alloc(ds, claims, arch, mode, n)->Some_0.len() == n,
    decreases n,
{
    if n > 0 {
        let i = first_fit_device(ds, claims, arch, mode, 0)->Some_0;
        let j = first_fit_file(ds[i].device.dev_files, claims[i], mode, 0)->Some_0;
        let f = ds[i].device.dev_files[j];
        lemma_greedy_len(
            ds,
            claims.update(i, claims_after(ds[i].device, f, claims[i])),
            arch,
            mode,
            (n - 1) as nat,
        );
    }
}

/// All or nothing: an unnamed allocation yields exactly `count` files or
/// none at all — never a partial result.
pub proof fn lemma_allocation_all_or_nothing(
    ds: Seq<DeviceWithStatusView>,
    arch: Arch,
    mode: DeviceMode,
    count: nat,
)
    ensures
        allocation_files(ds, arch, mode, count).len() == count || allocation_files(
            ds,
            arch,
            mode,
            count,
        ).len() == 0,
{
    match allocation_trace(ds, arch, mode, count) {
        None => {},
        Some(tr) => {
            lemma_greedy_len(ds, initial_claims(ds), arch, mode, count);
        },
    }
}

/// The greedy allocation never double-books: every placed file's cores are
/// free of the claims its device started the step with, and two files placed
/// on the same device share no core.
proof fn lemma_greedy_no_shared_core(
    ds: Seq<DeviceWithStatusView>,
    claims: Seq<Set<u8>>,
    arch: Arch,
    mode: DeviceMode,
    n: nat,
)
    requires
        claims.len() == ds.len(),
        greedy_alloc(ds, claims, arch, mode, n) is Some,
    ensures
        ({
            let tr = greedy_alloc(ds, claims, arch, mode, n)->Some_0;
            &&& forall|p: int|
                0 <= p < tr.len() ==> 0 <= (#[trigger] tr[p]).0 < ds.len() && (forall|k: int|
                    0 <= k < tr[p].1.core_indices.len() ==> !claims[tr[p].0].contains(
                        #[trigger] tr[p].1.core_indices[k],
                    ))
            &&& forall|p: int, q: int|
                0 <= p < q < tr.len() && (#[trigger] tr[p]).0 == (#[trigger] tr[q]).0
                    ==> seqs_disjoint(tr[p].1.core_indices, tr[q].1.core_indices)
        }),
    decreases n,
{
    if n > 0 {
        let tr = greedy_alloc(ds, claims, arch, mode, n)->Some_0;
        let i = first_fit_device(ds, claims, arch, mode, 0)->Some_0;
        lemma_first_fit_device_props(ds, claims, arch, mode, 0);
        let j = first_fit_file(ds[i].device.dev_files, claims[i], mode, 0)->Some_0;
        lemma_first_fit_file_props(ds[i].device.dev_files, claims[i], mode, 0);
        let f = ds[i].device.dev_files[j];
        let claims2 = claims.update(i, claims_after(ds[i].device, f, claims[i]));
        lemma_greedy_no_shared_core(ds, claims2, arch, mode, (n - 1) as nat);
        let rest = greedy_alloc(ds, claims2, arch, mode, (n - 1) as nat)->Some_0;
        assert(tr == seq![(i, f)] + rest);
        assert(tr[0] == (i, f));
        assert(forall|q: int| 0 < q < tr.len() ==> tr[q] == rest[q - 1]);
        // The new claims only grow, so freedom from them carries back.
        assert forall|x: int, c: u8|
            0 <= x < ds.len() && !claims2[x].contains(c) implies !claims[x].contains(c) by {
            if x != i {
                assert(claims2[x] == claims[x]);
            }
        }
        // The head file's cores all land in the new claims of device i.
        assert forall|k: int|
            0 <= k < f.core_indices.len() implies claims2[i].contains(
            #[trigger] f.core_indices[k],
        ) by {
            lemma_cores_set_contains(f.core_indices, f.core_indices.len() as int, f.core_indices[k]);
            assert(cores_set(f.core_indices).contains(f.core_indices[k]));
        }
        assert forall|p: int, q: int|
            0 <= p < q < tr.len() && (#[trigger] tr[p]).0 == (#[trigger] tr[q]).0
                implies seqs_disjoint(tr[p].1.core_indices, tr[q].1.core_indices) by {
            if p == 0 {
                // The later file was placed with the head's cores claimed.
                assert(tr[q] == rest[q - 1]);
                assert forall|k: int, l: int|
                    0 <= k < f.core_indices.len() && 0 <= l < tr[q].1.core_indices.len()
                        implies f.core_indices[k] != tr[q].1.core_indices[l] by {
                    assert(!claims2[tr[q].0].contains(tr[q].1.core_indices[l]));
                    assert(claims2[i].contains(f.core_indices[k]));
                }
            } else {
                assert(tr[p] == rest[p - 1]);
                assert(tr[q] == rest[q - 1]);
            }
        }
    }
}

/// No double booking: in a successful unnamed allocation, two files drawn
/// from the same device of the snapshot never share a core index, and no
/// file touches a core its device's snapshot already reported occupied.
pub proof fn lemma_allocation_no_shared_core(
    ds: Seq<DeviceWithStatusView>,
    arch: Arch,
    mode: DeviceMode,
    count: nat,
)
    ensures
        allocation_trace(ds, arch, mode, count) matches Some(tr) ==> ((forall|p: int|
            0 <= p < tr.len() ==> 0 <= (#[trigger] tr[p]).0 < ds.len() && (forall|k: int|
                0 <= k < tr[p].1.core_indices.len() ==> !occupied_cores(ds[tr[p].0]).contains(
                    #[trigger] tr[p].1.core_indices[k],
                ))) && (forall|p: int, q: int|
            0 <= p < q < tr.len() && (#[trigger] tr[p]).0 == (#[trigger] tr[q]).0
                ==> seqs_disjoint(tr[p].1.core_indices, tr[q].1.core_indices))),
{
    if allocation_trace(ds, arch, mode, count) is Some {
        lemma_greedy_no_shared_core(ds, initial_claims(ds), arch, mode, count);
        let tr = allocation_trace(ds, arch, mode, count)->Some_0;
        assert forall|p: int| 0 <= p < tr.len() implies 0 <= (#[trigger] tr[p]).0 < ds.len() && (
        forall|k: int|
            0 <= k < tr[p].1.core_indices.len() ==> !occupied_cores(ds[tr[p].0]).contains(
                #[trigger] tr[p].1.core_indices[k],
            )) by {
            assert(initial_claims(ds)[tr[p].0] == occupied_cores(ds[tr[p].0]));
        }
    }
}

/// A well-formed snapshot: every device well formed against the resource
/// model's invariants, and device indices unique across the list.
pub open spec fn snapshot_wf(ds: Seq<DeviceWithStatusView>) -> bool {
    &&& forall|i: int| 0 <= i < ds.len() ==> (#[trigger] ds[i]).wf()
    &&& forall|i1: int, i2: int|
        0 <= i1 < i2 < ds.len() ==> (#[trigger] ds[i1]).device.device_index != (
        #[trigger] ds[i2]).device.device_index
}

/// Under a well-formed snapshot, "the same device" can be read off the
/// device index: two files of a successful allocation drawn from devices
/// carrying one index share no core.
pub proof fn lemma_allocation_no_shared_core_by_index(
    ds: Seq<DeviceWithStatusView>,
    arch: Arch,
    mode: DeviceMode,
    count: nat,
)
    requires
        snapshot_wf(ds),
    ensures
        allocation_trace(ds, arch, mode, count) matches Some(tr) ==> forall|p: int, q: int|
            0 <= p < q < tr.len() && ds[(#[trigger] tr[p]).0].device.device_index == ds[(
            #[trigger] tr[q]).0].device.device_index ==> seqs_disjoint(
                tr[p].1.core_indices,
                tr[q].1.core_indices,
            ),
{
    lemma_allocation_no_shared_core(ds, arch, mode, count);
    if allocation_trace(ds, arch, mode, count) is Some {
        let tr = allocation_trace(ds, arch, mode, count)->Some_0;
        assert forall|p: int, q: int|
            0 <= p < q < tr.len() && ds[(#[trigger] tr[p]).0].device.device_index == ds[(
            #[trigger] tr[q]).0].device.device_index implies seqs_disjoint(
            tr[p].1.core_indices,
            tr[q].1.core_indices,
        ) by {
            if tr[p].0 != tr[q].0 {
                // Distinct positions carry distinct indices.
                if tr[p].0 < tr[q].0 {
                    assert(ds[tr[p].0].device.device_index != ds[tr[q].0].device.device_index);
                } else {
                    assert(ds[tr[q].0].device.device_index != ds[tr[p].0].device.device_index);
                }
            }
        }
    }
}

/// In `MultiCore` mode the greedy allocation never returns to a device:
/// every placed file's device starts its step with an empty claimed set and
/// ends it with a non-empty one.
proof fn lemma_greedy_multicore_distinct(
    ds: Seq<DeviceWithStatusView>,
    claims: Seq<Set<u8>>,
    arch: Arch,
    n: nat,
)
    requires
        claims.len() == ds.len(),
        forall|i: int| 0 <= i < ds.len() ==> (#[trigger] ds[i]).wf(),
        greedy_alloc(ds, claims, arch, DeviceMode::MultiCore, n) is Some,
    ensures
        ({
            let tr = greedy_alloc(ds, claims, arch, DeviceMode::MultiCore, n)->Some_0;
            &&& forall|p: int|
                0 <= p < tr.len() ==> 0 <= (#[trigger] tr[p]).0 < ds.len() && claims[(
                #[trigger] tr[p]).0].is_empty()
            &&& forall|p: int, q: int|
                0 <= p < q < tr.len() ==> (#[trigger] tr[p]).0 != (#[trigger] tr[q]).0
        }),
    decreases n,
{
    let mode = DeviceMode::MultiCore;
    if n > 0 {
        let tr = greedy_alloc(ds, claims, arch, mode, n)->Some_0;
        let i = first_fit_device(ds, claims, arch, mode, 0)->Some_0;
        lemma_first_fit_device_props(ds, claims, arch, mode, 0);
        let j = first_fit_file(ds[i].device.dev_files, claims[i], mode, 0)->Some_0;
        lemma_first_fit_file_props(ds[i].device.dev_files, claims[i], mode, 0);
        let f = ds[i].device.dev_files[j];
        let claims2 = claims.update(i, claims_after(ds[i].device, f, claims[i]));
        // The chosen file spans a core (the model's invariant), so the
        // device's claimed set is no longer empty.
        assert(f.wf(ds[i].device.cores));
        assert(f.core_indices.len() > 0);
        lemma_cores_set_contains(f.core_indices, f.core_indices.len() as int, f.core_indices[0]);
        assert(cores_set(f.core_indices).contains(f.core_indices[0]));
        assert(claims2[i].contains(f.core_indices[0]));
        assert(!claims2[i].is_empty());
        lemma_greedy_multicore_distinct(ds, claims2, arch, (n - 1) as nat);
        let rest = greedy_alloc(ds, claims2, arch, mode, (n - 1) as nat)->Some_0;
        assert(tr == seq![(i, f)] + rest);
        assert(tr[0] == (i, f));
        assert(forall|q: int| 0 < q < tr.len() ==> tr[q] == rest[q - 1]);
        assert forall|p: int|
            0 <= p < tr.len() implies 0 <= (#[trigger] tr[p]).0 < ds.len() && claims[tr[p].0].is_empty() by {
            if p > 0 {
                assert(claims2[tr[p].0].is_empty());
                assert(tr[p].0 != i);
                assert(claims[tr[p].0] == claims2[tr[p].0]);
            }
        }
    }
}

/// One whole device per unit: in a successful `MultiCore` allocation over a
/// well-formed snapshot, no two placed files come from the same device.
pub proof fn lemma_multicore_takes_one_file_per_device(
    ds: Seq<DeviceWithStatusView>,
    arch: Arch,
    count: nat,
)
    requires
        snapshot_wf(ds),
    ensures
        allocation_trace(ds, arch, DeviceMode::MultiCore, count) matches Some(tr) ==> forall|
            p: int,
            q: int,
        | 0 <= p < q < tr.len() ==> (#[trigger] tr[p]).0 != (#[trigger] tr[q]).0,
{
    if allocation_trace(ds, arch, DeviceMode::MultiCore, count) is Some {
        lemma_greedy_multicore_distinct(ds, initial_claims(ds), arch, count);
    }
}

/// Resolves a request against a snapshot of devices.
///
/// For an unnamed request the result is exactly what the greedy
/// specification [`allocation_files`] yields over the snapshot's view:
/// either one file per requested unit, claimed without conflict in snapshot
/// order, or — as soon as any unit cannot be placed — an empty list.
/// Running out of matching free resources is not an error.
///
/// Resolving a named request against a snapshot has no defined policy; it
/// returns [`DeviceError::UnsupportedConfig`] rather than guessing one.
#[verifier::loop_isolation(false)]
pub fn find_devices_in(config: &DeviceConfig, devices: &Vec<DeviceWithStatus>) -> (r: Result<
    Vec<DeviceFile>,
    DeviceError,
>)
    ensures
        config is Named ==> r == Err::<Vec<DeviceFile>, DeviceError>(
            DeviceError::UnsupportedConfig,
        ),
        config matches DeviceConfig::Unnamed { arch, mode, count } ==> (r matches Ok(found)
            && found@.map_values(|f: DeviceFile| f@) == allocation_files(
            snapshot_views(devices@),
            *arch,
            *mode,
            *count as nat,
        ) && (found@.len() == *count || found@.len() == 0)),
{
    let (arch, mode, count) = match config {
        DeviceConfig::Named { .. } => {
            return Err(DeviceError::UnsupportedConfig);
        },
        DeviceConfig::Unnamed { arch, mode, count } => (*arch, *mode, *count),
    };
    let ghost ds = snapshot_views(devices@);
    proof {
        assert(ds.len() == devices@.len());
    }
    // Seed each device's claimed set with its occupied cores.
    let mut rows: Vec<Vec<bool>> = Vec::new();
    let mut idx: usize = 0;
    while idx < devices.len()
        invariant
            idx <= devices@.len(),
            rows@.len() == idx,
            forall|i: int|
                0 <= i < idx ==> row_models(#[trigger] rows@[i]@, initial_claims(ds)[i]),
        decreases devices@.len() - idx,
    {
        let dws = &devices[idx];
        let mut row = empty_row();
        let ghost mut occ: Set<u8> = Set::empty();
        let mut k: usize = 0;
        while k < dws.statuses.len()
            invariant
                k <= dws.statuses@.len(),
                row_models(row@, occ),
                occ == occupied_upto(dws.statuses@, k as int),
            decreases dws.statuses@.len() - k,
        {
            let entry = dws.statuses[k];
            if entry.1 != CoreStatus::Available {
                set_row_core(&mut row, entry.0, Ghost(occ));
                proof {
                    occ = occ.insert(entry.0);
                }
            }
            k = k + 1;
        }
        proof {
            assert(ds[idx as int] == devices@[idx as int]@);
            assert(occ == occupied_cores(ds[idx as int]));
        }
        rows.push(row);
        idx = idx + 1;
    }
    let ghost init_cl = initial_claims(ds);
    let ghost mut cl: Seq<Set<u8>> = init_cl;
    let ghost mut tr: Seq<(int, DeviceFileView)> = Seq::empty();
    let mut found: Vec<DeviceFile> = Vec::new();
    let mut unit: u8 = 0;
    while unit < count
        invariant
            unit <= count,
            cl.len() == ds.len(),
            rows@.len() == ds.len(),
            forall|i: int| 0 <= i < ds.len() ==> row_models(#[trigger] rows@[i]@, cl[i]),
            found@.len() == unit as int,
            tr.len() == unit as int,
            found@.map_values(|f: DeviceFile| f@) == tr.map_values(
                |e: (int, DeviceFileView)| e.1,
            ),
            greedy_alloc(ds, init_cl, arch, mode, count as nat) == (match greedy_alloc(
                ds,
                cl,
                arch,
                mode,
                (count - unit) as nat,
            ) {
                None => None::<Seq<(int, DeviceFileView)>>,
                Some(rest) => Some(tr + rest),
            }),
        decreases count - unit,
    {
        match pick_one(devices, &rows, arch, mode, Ghost(cl)) {
            None => {
                proof {
                    assert(greedy_alloc(ds, cl, arch, mode, (count - unit) as nat) is None);
                }
                let out: Vec<DeviceFile> = Vec::new();
                proof {
                    assert(out@.map_values(|f: DeviceFile| f@) =~= allocation_files(
                        ds,
                        arch,
                        mode,
                        count as nat,
                    ));
                }
                return Ok(out);
            },
            Some((i, j)) => {
                proof {
                    lemma_first_fit_device_props(ds, cl, arch, mode, 0);
                    lemma_first_fit_file_props(
                        ds[i as int].device.dev_files,
                        cl[i as int],
                        mode,
                        0,
                    );
                    assert(ds[i as int] == devices@[i as int]@);
                }
                let dev = &devices[i];
                let df = &dev.device.dev_files[j];
                let ghost fv = ds[i as int].device.dev_files[j as int];
                proof {
                    assert(fv == dev.device.dev_files@[j as int]@);
                }
                let copy = df.clone();
                let ghost found0 = found@;
                found.push(copy);
                let ghost rows0 = rows@;
                let mut row = rows.remove(i);
                claim_cores(&mut row, &df.core_indices, Ghost(cl[i as int]));
                if df.is_multicore {
                    claim_cores(
                        &mut row,
                        &dev.device.cores,
                        Ghost(cl[i as int].union(cores_set(df.core_indices@))),
                    );
                }
                rows.insert(i, row);
                proof {
                    let ncl = claims_after(ds[i as int].device, fv, cl[i as int]);
                    assert(row_models(row@, ncl));
                    assert(rows@ =~= rows0.update(i as int, row));
                    let cl0 = cl;
                    let tr0 = tr;
                    cl = cl.update(i as int, ncl);
                    tr = tr.push((i as int, fv));
                    // One greedy step from the old claims places exactly
                    // this file on this device.
                    let cu = (count - unit) as nat;
                    assert(greedy_alloc(ds, cl0, arch, mode, cu) == (match greedy_alloc(
                        ds,
                        cl,
                        arch,
                        mode,
                        (cu - 1) as nat,
                    ) {
                        None => None::<Seq<(int, DeviceFileView)>>,
                        Some(rest) => Some(seq![(i as int, fv)] + rest),
                    }));
                    match greedy_alloc(ds, cl, arch, mode, (cu - 1) as nat) {
                        None => {},
                        Some(rest) => {
                            assert(tr0 + (seq![(i as int, fv)] + rest) =~= tr + rest);
                        },
                    }
                    let m1 = found@.map_values(|f: DeviceFile| f@);
                    let m2 = tr.map_values(|e: (int, DeviceFileView)| e.1);
                    assert(m1.len() == m2.len());
                    assert forall|q: int| 0 <= q < m1.len() implies m1[q] == m2[q] by {
                        if q < tr0.len() {
                            assert(found@[q] == found0[q]);
                            assert(tr[q] == tr0[q]);
                            assert(m1[q] == found0.map_values(|f: DeviceFile| f@)[q]);
                            assert(m2[q] == tr0.map_values(|e: (int, DeviceFileView)| e.1)[q]);
                        } else {
                            assert(found@[q] == copy);
                            assert(tr[q] == (i as int, fv));
                            assert(m1[q] == copy@);
                            assert(m2[q] == fv);
                        }
                    }
                    assert(m1 =~= m2);
                }
                unit = unit + 1;
            },
        }
    }
    proof {
        assert(greedy_alloc(ds, cl, arch, mode, 0) == Some(Seq::<(int, DeviceFileView)>::empty()));
        assert(tr + Seq::<(int, DeviceFileView)>::empty() =~= tr);
        assert(allocation_files(ds, arch, mode, count as nat) == tr.map_values(
            |e: (int, DeviceFileView)| e.1,
        ));
    }
    Ok(found)
}

} // verus!
