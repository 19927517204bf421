//! Health reporting of the services.

use vstd::prelude::*;

verus! {

/// Status of a health check.
#[derive(Debug, Clone, Copy, PartialEq, Eq, Structural)]
pub enum HealthStatus {
    Up,
    Down,
    Degraded,
}

/// The overall status of a set of health checks: down when one is down,
/// else degraded when one is degraded, else up.
pub open spec fn overall_health_spec(s: Seq<HealthStatus>) -> HealthStatus {
    if s.contains(HealthStatus::Down) {
        HealthStatus::Down
    } else if s.contains(HealthStatus::Degraded) {
        HealthStatus::Degraded
    } else {
        HealthStatus::Up
    }
}

/// The worst status among the checks; up when there are none.
pub fn overall_health(statuses: &Vec<HealthStatus>) -> (r: HealthStatus)
    ensures
        r == overall_health_spec(statuses@),
{
    let mut has_down = false;
    let mut has_degraded = false;
    let mut k: usize = 0;
    while k < statuses.len()
        invariant
            k <= statuses@.len(),
            has_down == statuses@.take(k as int).contains(HealthStatus::Down),
            has_degraded == statuses@.take(k as int).contains(HealthStatus::Degraded),
        decreases statuses.len() - k,
    {
        proof {
            let s0 = statuses@.take(k as int);
            let x = statuses@[k as int];
            let s1 = s0.push(x);
            assert(statuses@.take(k + 1) =~= s1);
            assert forall|y: HealthStatus| s1.contains(y) <==> (s0.contains(y) || y == x) by {
                if s1.contains(y) {
                    let w = choose|w: int| 0 <= w < s1.len() && s1[w] == y;
                    if w < s0.len() {
                        assert(s0[w] == y);
                    }
                }
                if s0.contains(y) {
                    let w = choose|w: int| 0 <= w < s0.len() && s0[w] == y;
                    assert(s1[w] == y);
                }
                if y == x {
                    assert(s1[s0.len() as int] == y);
                }
            }
        }
        match statuses[k] {
            HealthStatus::Down => { has_down = true; },
            HealthStatus::Degraded => { has_degraded = true; },
            HealthStatus::Up => {},
        }
        k += 1;
    }
    proof {
        assert(statuses@.take(statuses@.len() as int) =~= statuses@);
    }
    if has_down {
        HealthStatus::Down
    } else if has_degraded {
        HealthStatus::Degraded
    } else {
        HealthStatus::Up
    }
}

} // verus!
