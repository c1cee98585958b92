//! Marshalling between sequences of core indices and the kernel-layout
//! [`CpuSet`], and translation of native affinity-call return codes into
//! [`AffinityError`] values.
//!
//! The native calls themselves (which take a thread identity and a pointer to
//! the mask buffer) cannot be made from verified code; a caller performs them
//! and hands their raw return codes, and the mask words the kernel produced,
//! to the functions of this module.

use vstd::prelude::*;

verus! {

use crate::cpuset::{CpuSet, CPU_ISSET, CPU_SET, CPU_SETSIZE};
use vstd::string::StringExecFns;

/// The decimal digit character for `d` in `[0, 10)`.
pub open spec fn spec_digit_char(d: nat) -> char {
    if d == 0 {
        '0'
    } else if d == 1 {
        '1'
    } else if d == 2 {
        '2'
    } else if d == 3 {
        '3'
    } else if d == 4 {
        '4'
    } else if d == 5 {
        '5'
    } else if d == 6 {
        '6'
    } else if d == 7 {
        '7'
    } else if d == 8 {
        '8'
    } else {
        '9'
    }
}

/// The usual decimal rendering of `n`: most significant digit first, no
/// leading zeros (except for `n == 0` itself).
pub open spec fn spec_decimal(n: nat) -> Seq<char>
    decreases n,
{
    if n < 10 {
        seq![spec_digit_char(n)]
    } else {
        spec_decimal(n / 10).push(spec_digit_char(n % 10))
    }
}

/// The decimal rendering of a signed code: a leading `-` for negative values.
pub open spec fn spec_errno_decimal(code: int) -> Seq<char> {
    if code < 0 {
        seq!['-'] + spec_decimal((-code) as nat)
    } else {
        spec_decimal(code as nat)
    }
}

/// The one-character string for a single decimal digit.
fn digit_str(d: u64) -> (r: String)
    requires
        d < 10,
    ensures
        r@ =~= seq![spec_digit_char(d as nat)],
{
    proof {
        reveal_strlit("0");
        reveal_strlit("1");
        reveal_strlit("2");
        reveal_strlit("3");
        reveal_strlit("4");
        reveal_strlit("5");
        reveal_strlit("6");
        reveal_strlit("7");
        reveal_strlit("8");
        reveal_strlit("9");
    }
    if d == 0 {
        String::from_str("0")
    } else if d == 1 {
        String::from_str("1")
    } else if d == 2 {
        String::from_str("2")
    } else if d == 3 {
        String::from_str("3")
    } else if d == 4 {
        String::from_str("4")
    } else if d == 5 {
        String::from_str("5")
    } else if d == 6 {
        String::from_str("6")
    } else if d == 7 {
        String::from_str("7")
    } else if d == 8 {
        String::from_str("8")
    } else {
        String::from_str("9")
    }
}

/// Renders `n` in decimal.
pub fn u64_decimal(n: u64) -> (r: String)
    ensures
        r@ == spec_decimal(n as nat),
    decreases n,
{
    if n < 10 {
        digit_str(n)
    } else {
        let mut prefix = u64_decimal(n / 10);
        let digit = digit_str(n % 10);
        prefix.append(digit.as_str());
        proof {
            assert(prefix@ =~= spec_decimal(n as nat));
        }
        prefix
    }
}

/// Renders a possibly negative native return code in decimal.
pub fn errno_decimal(code: i32) -> (r: String)
    ensures
        r@ == spec_errno_decimal(code as int),
{
    if code < 0 {
        let magnitude: u64 = (-(code as i64)) as u64;
        let mut r = String::from_str("-");
        let digits = u64_decimal(magnitude);
        r.append(digits.as_str());
        proof {
            reveal_strlit("-");
            assert("-"@ =~= seq!['-']);
            assert(r@ =~= spec_errno_decimal(code as int));
        }
        r
    } else {
        u64_decimal(code as u64)
    }
}

/// Every element is strictly smaller than every later element: ascending, no
/// duplicates.
pub open spec fn strictly_ascending(s: Seq<usize>) -> bool {
    forall|i: int, j: int| 0 <= i < j < s.len() ==> s[i] < s[j]
}

/// The failure of a native affinity call: which call failed and the non-zero
/// code it returned.
#[derive(Debug)]
pub struct AffinityError {
    /// The name of the native call that failed.
    pub operation: String,
    /// The non-zero code the native call returned.
    pub code: i32,
}

impl AffinityError {
    /// A diagnostic message carrying the operation name and the literal
    /// numeric code.
    pub fn message(&self) -> (r: String)
        ensures
            r@ == self.operation@ + " failed with errno "@ + spec_errno_decimal(self.code as int),
    {
        let mut r = self.operation.clone();
        r.append(" failed with errno ");
        let digits = errno_decimal(self.code);
        r.append(digits.as_str());
        proof {
            assert(r@ =~= self.operation@ + " failed with errno "@ + spec_errno_decimal(
                self.code as int,
            ));
        }
        r
    }
}

/// Translates the return code of the native set-affinity call: zero means the
/// whole mask was installed, any other code is surfaced unchanged in an
/// [`AffinityError`] named after the call.
pub fn set_affinity_result(ret: i32) -> (r: Result<(), AffinityError>)
    ensures
        ret == 0 <==> r is Ok,
        (r matches Err(e) ==> e.code == ret && e.operation@ == "sched_setaffinity"@),
{
    if ret == 0 {
        Ok(())
    } else {
        Err(AffinityError { operation: String::from_str("sched_setaffinity"), code: ret })
    }
}

/// Translates the outcome of the native get-affinity call: on a zero return
/// code, the mask words the kernel filled in are scanned into the ascending
/// list of set core indices; any other code is surfaced unchanged in an
/// [`AffinityError`] named after the call.
pub fn get_affinity_result(ret: i32, set: &CpuSet) -> (r: Result<Vec<usize>, AffinityError>)
    requires
        set.wf(),
    ensures
        ret == 0 <==> r is Ok,
        (r matches Ok(ids) ==> strictly_ascending(ids@) && (forall|k: int|
            0 <= k < ids@.len() ==> ids@[k] < CPU_SETSIZE) && (forall|n: nat|
            n < CPU_SETSIZE ==> (set.spec_has(n) <==> ids@.contains(n as usize)))),
        (r matches Err(e) ==> e.code == ret && e.operation@ == "sched_getaffinity"@),
{
    if ret == 0 {
        Ok(ids_from_cpuset(set))
    } else {
        Err(AffinityError { operation: String::from_str("sched_getaffinity"), code: ret })
    }
}

/// Builds the affinity mask for a list of core indices: a zeroed set with
/// exactly the listed bits set. Setting an already-set bit is idempotent, so
/// duplicates in `core_ids` are harmless.
pub fn cpuset_from_ids(core_ids: &[usize]) -> (s: CpuSet)
    requires
        forall|i: int| 0 <= i < core_ids@.len() ==> core_ids@[i] < CPU_SETSIZE,
    ensures
        s.wf(),
        forall|n: nat|
            n < CPU_SETSIZE ==> (s.spec_has(n) <==> core_ids@.contains(n as usize)),
{
    let mut set = CpuSet::new();
    let mut i: usize = 0;
    while i < core_ids.len()
        invariant
            set.wf(),
            i <= core_ids@.len(),
            forall|k: int| 0 <= k < core_ids@.len() ==> core_ids@[k] < CPU_SETSIZE,
            forall|n: nat|
                n < CPU_SETSIZE ==> (set.spec_has(n) <==> (exists|j: int|
                    0 <= j < i && core_ids@[j] == n)),
        decreases core_ids@.len() - i,
    {
        let id = core_ids[i];
        CPU_SET(id, &mut set);
        proof {
            assert forall|n: nat| n < CPU_SETSIZE implies (set.spec_has(n) <==> (exists|j: int|
                0 <= j < i + 1 && core_ids@[j] == n)) by {
                if n == id {
                    assert(core_ids@[i as int] == n);
                } else {
                    if exists|j: int| 0 <= j < i + 1 && core_ids@[j] == n {
                        let j = choose|j: int| 0 <= j < i + 1 && core_ids@[j] == n;
                        assert(j < i);
                    }
                }
            }
        }
        i = i + 1;
    }
    set
}

/// For a strictly ascending sequence, the tail contains exactly the members
/// of the whole sequence that are greater than its head.
proof fn lemma_ascending_tail_membership(s: Seq<usize>, n: usize)
    requires
        strictly_ascending(s),
        s.len() > 0,
    ensures
        s.drop_first().contains(n) <==> (s.contains(n) && n > s[0]),
{
    let t = s.drop_first();
    if t.contains(n) {
        let k = choose|k: int| 0 <= k < t.len() && t[k] == n;
        assert(s[k + 1] == n);
        assert(s.contains(n));
    }
    if s.contains(n) && n > s[0] {
        let k = choose|k: int| 0 <= k < s.len() && s[k] == n;
        assert(k != 0);
        assert(t[k - 1] == n);
        assert(t.contains(n));
    }
}

/// Two strictly ascending sequences with the same members are the same
/// sequence: an ascending, duplicate-free listing of a set of indices is
/// unique.
pub proof fn lemma_ascending_membership_unique(a: Seq<usize>, b: Seq<usize>)
    requires
        strictly_ascending(a),
        strictly_ascending(b),
        forall|n: usize| a.contains(n) <==> b.contains(n),
    ensures
        a == b,
    decreases a.len(),
{
    if a.len() == 0 {
        if b.len() > 0 {
            assert(b.contains(b[0]));
            let k = choose|k: int| 0 <= k < a.len() && a[k] == b[0];
            assert(false);
        }
        assert(a =~= b);
    } else if b.len() == 0 {
        assert(a.contains(a[0]));
        let k = choose|k: int| 0 <= k < b.len() && b[k] == a[0];
        assert(false);
    } else {
        assert(a.contains(a[0]));
        let ka = choose|k: int| 0 <= k < b.len() && b[k] == a[0];
        assert(b[0] <= b[ka]);
        assert(b.contains(b[0]));
        let kb = choose|k: int| 0 <= k < a.len() && a[k] == b[0];
        assert(a[0] <= a[kb]);
        assert(a[0] == b[0]);
        let at = a.drop_first();
        let bt = b.drop_first();
        assert forall|n: usize| at.contains(n) <==> bt.contains(n) by {
            lemma_ascending_tail_membership(a, n);
            lemma_ascending_tail_membership(b, n);
        }
        lemma_ascending_membership_unique(at, bt);
        assert forall|i: int| 0 <= i < a.len() implies a[i] == b[i] by {
            if i > 0 {
                assert(a[i] == at[i - 1]);
                assert(b[i] == bt[i - 1]);
            }
        }
        assert(a =~= b);
    }
}

/// Round trip: if a mask holds exactly the members of a strictly ascending
/// list of core indices (as [`cpuset_from_ids`] ensures of the mask it
/// builds), then scanning that mask back (as [`ids_from_cpuset`] ensures of
/// its result) returns exactly the original list.
pub proof fn lemma_set_get_round_trip(ids: Seq<usize>, s: CpuSet, got: Seq<usize>)
    requires
        strictly_ascending(ids),
        forall|k: int| 0 <= k < ids.len() ==> ids[k] < CPU_SETSIZE,
        forall|n: nat| n < CPU_SETSIZE ==> (s.spec_has(n) <==> ids.contains(n as usize)),
        strictly_ascending(got),
        forall|k: int| 0 <= k < got.len() ==> got[k] < CPU_SETSIZE,
        forall|n: nat| n < CPU_SETSIZE ==> (s.spec_has(n) <==> got.contains(n as usize)),
    ensures
        got == ids,
{
    assert forall|n: usize| got.contains(n) <==> ids.contains(n) by {
        if n < CPU_SETSIZE {
            assert(got.contains(n) <==> s.spec_has(n as nat));
            assert(ids.contains(n) <==> s.spec_has(n as nat));
        } else {
            if got.contains(n) {
                let k = choose|k: int| 0 <= k < got.len() && got[k] == n;
                assert(false);
            }
            if ids.contains(n) {
                let k = choose|k: int| 0 <= k < ids.len() && ids[k] == n;
                assert(false);
            }
        }
    }
    lemma_ascending_membership_unique(got, ids);
}

/// Idempotence of setting affinity, as far as the masks decide it: two masks
/// with the same members — such as the masks two consecutive
/// [`cpuset_from_ids`] calls on the same core list build — scan back to the
/// very same ascending index list, so the affinity observed after the second
/// call equals the affinity observed after the first.
pub proof fn lemma_get_deterministic(s1: CpuSet, s2: CpuSet, got1: Seq<usize>, got2: Seq<usize>)
    requires
        forall|n: nat| n < CPU_SETSIZE ==> (s1.spec_has(n) <==> s2.spec_has(n)),
        strictly_ascending(got1),
        forall|k: int| 0 <= k < got1.len() ==> got1[k] < CPU_SETSIZE,
        forall|n: nat| n < CPU_SETSIZE ==> (s1.spec_has(n) <==> got1.contains(n as usize)),
        strictly_ascending(got2),
        forall|k: int| 0 <= k < got2.len() ==> got2[k] < CPU_SETSIZE,
        forall|n: nat| n < CPU_SETSIZE ==> (s2.spec_has(n) <==> got2.contains(n as usize)),
    ensures
        got1 == got2,
{
    assert forall|n: usize| got1.contains(n) <==> got2.contains(n) by {
        if n < CPU_SETSIZE {
            assert(got1.contains(n) <==> s1.spec_has(n as nat));
            assert(got2.contains(n) <==> s2.spec_has(n as nat));
        } else {
            if got1.contains(n) {
                let k = choose|k: int| 0 <= k < got1.len() && got1[k] == n;
                assert(false);
            }
            if got2.contains(n) {
                let k = choose|k: int| 0 <= k < got2.len() && got2[k] == n;
                assert(false);
            }
        }
    }
    lemma_ascending_membership_unique(got1, got2);
}

/// Reads an affinity mask back into the ascending list of core indices whose
/// bits are set. Each bit is examined once, so the list has no duplicates.
pub fn ids_from_cpuset(set: &CpuSet) -> (ids: Vec<usize>)
    requires
        set.wf(),
    ensures
        strictly_ascending(ids@),
        forall|k: int| 0 <= k < ids@.len() ==> ids@[k] < CPU_SETSIZE,
        forall|n: nat|
            n < CPU_SETSIZE ==> (set.spec_has(n) <==> ids@.contains(n as usize)),
{
    let mut ids: Vec<usize> = Vec::new();
    let mut i: usize = 0;
    while i < CPU_SETSIZE
        invariant
            set.wf(),
            i <= CPU_SETSIZE,
            strictly_ascending(ids@),
            forall|k: int| 0 <= k < ids@.len() ==> ids@[k] < i,
            forall|n: nat|
                n < i ==> (set.spec_has(n) <==> ids@.contains(n as usize)),
        decreases CPU_SETSIZE - i,
    {
        if CPU_ISSET(i, set) {
            let ghost prev = ids@;
            ids.push(i);
            proof {
                assert forall|n: nat| n < i + 1 implies (set.spec_has(n) <==> ids@.contains(
                    n as usize,
                )) by {
                    if n == i {
                        assert(ids@[ids@.len() - 1] == n as usize);
                    } else {
                        if ids@.contains(n as usize) {
                            let k = choose|k: int| 0 <= k < ids@.len() && ids@[k] == n as usize;
                            assert(k < prev.len());
                            assert(prev.contains(n as usize));
                        }
                        if prev.contains(n as usize) {
                            let k = choose|k: int| 0 <= k < prev.len() && prev[k] == n as usize;
                            assert(ids@[k] == n as usize);
                        }
                    }
                }
            }
        } else {
            proof {
                assert forall|n: nat| n < i + 1 && ids@.contains(n as usize) implies set.spec_has(
                    n,
                ) by {
                    let k = choose|k: int| 0 <= k < ids@.len() && ids@[k] == n as usize;
                    assert(ids@[k] < i);
                }
            }
        }
        i = i + 1;
    }
    ids
}

} // verus!
