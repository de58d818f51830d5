//! The ruleset plan: the exact sequence of backend declarations a resolved
//! policy calls for.  Opening paths and invoking the kernel backend is the
//! caller's concern; a port outside the 16-bit range is fatal here.

use vstd::prelude::*;
use crate::resolve::{paths_view, ResolvedConfig};

verus! {

/// The ordered actions to install a resolved policy: declare each non-empty
/// handled set, then add the path rules in sorted order, then the port
/// rules.
pub struct RulesetPlan {
    pub handle_fs: Option<u64>,
    pub handle_net: Option<u64>,
    pub scope: Option<u64>,
    pub path_rules: Vec<(String, u64)>,
    pub port_rules: Vec<(u16, u64)>,
}

/// Why no plan can be built.
#[derive(Clone, Copy, Debug, PartialEq, Eq, Structural)]
pub enum PlanError {
    PortOutOfRange(u64),
}

/// The first port that does not fit the backend's 16-bit range.
pub open spec fn first_bad_port(np: Seq<(u64, u64)>) -> Option<u64>
    decreases np.len(),
{
    if np.len() == 0 {
        None
    } else if np[0].0 > 65535 {
        Some(np[0].0)
    } else {
        first_bad_port(np.drop_first())
    }
}

impl ResolvedConfig {
    /// Computes the installation plan: empty handled sets are skipped, path
    /// rules keep their sorted order, ports are converted to the backend's
    /// range, and the first out-of-range port is a fatal error.
    pub fn build_plan(&self) -> (r: Result<RulesetPlan, PlanError>)
        ensures
            r is Ok <==> first_bad_port(self@.np) is None,
            r is Err ==> match r->Err_0 {
                PlanError::PortOutOfRange(p) => Some(p) == first_bad_port(self@.np),
            },
            r is Ok ==> {
                let plan = r->Ok_0;
                &&& plan.handle_fs == (if self@.handled_fs == 0 {
                    Option::<u64>::None
                } else {
                    Some(self@.handled_fs)
                })
                &&& plan.handle_net == (if self@.handled_net == 0 {
                    Option::<u64>::None
                } else {
                    Some(self@.handled_net)
                })
                &&& plan.scope == (if self@.scoped == 0 {
                    Option::<u64>::None
                } else {
                    Some(self@.scoped)
                })
                &&& paths_view(plan.path_rules@) =~= self@.paths
                &&& plan.port_rules@.len() == self@.np.len()
                &&& forall|i: int|
                    0 <= i < self@.np.len() ==> ((#[trigger] plan.port_rules@[i]).0 as u64,
                    plan.port_rules@[i].1) == self@.np[i]
            },
    {
        let ghost npv = self.rules_net_port@;
        let mut ports: Vec<(u16, u64)> = Vec::new();
        let n = self.rules_net_port.len();
        let mut i: usize = 0;
        proof {
            assert(npv.skip(0) =~= npv);
        }
        while i < n
            invariant
                i <= n,
                n == self.rules_net_port@.len(),
                npv == self.rules_net_port@,
                first_bad_port(npv) == first_bad_port(npv.skip(i as int)),
                ports@.len() == i,
                forall|j: int|
                    0 <= j < i ==> ((#[trigger] ports@[j]).0 as u64, ports@[j].1) == npv[j],
            decreases n - i,
        {
            let (port, bits) = self.rules_net_port[i];
            proof {
                assert(npv.skip(i as int)[0] == npv[i as int]);
                assert(npv.skip(i as int).drop_first() =~= npv.skip(i + 1));
            }
            if port > 65535 {
                return Err(PlanError::PortOutOfRange(port));
            }
            ports.push(((port as u16), bits));
            i = i + 1;
        }
        proof {
            assert(npv.skip(n as int).len() == 0);
        }
        let mut paths: Vec<(String, u64)> = Vec::new();
        let m = self.rules_path_beneath.len();
        let mut j: usize = 0;
        proof {
            assert(paths_view(paths@) =~= paths_view(self.rules_path_beneath@).subrange(0, 0));
        }
        while j < m
            invariant
                j <= m,
                m == self.rules_path_beneath@.len(),
                paths_view(paths@) =~= paths_view(self.rules_path_beneath@).subrange(
                    0,
                    j as int,
                ),
            decreases m - j,
        {
            let ghost pre = paths_view(paths@);
            paths.push((self.rules_path_beneath[j].0.clone(), self.rules_path_beneath[j].1));
            proof {
                let full = paths_view(self.rules_path_beneath@);
                assert(paths_view(paths@) =~= pre.push(full[j as int]));
                assert(paths_view(paths@) =~= full.subrange(0, j + 1));
            }
            j = j + 1;
        }
        proof {
            assert(paths_view(self.rules_path_beneath@).subrange(
                0,
                m as int,
            ) =~= paths_view(self.rules_path_beneath@));
        }
        let handle_fs = if self.handled_fs == 0 {
            None
        } else {
            Some(self.handled_fs)
        };
        let handle_net = if self.handled_net == 0 {
            None
        } else {
            Some(self.handled_net)
        };
        let scope = if self.scoped == 0 {
            None
        } else {
            Some(self.scoped)
        };
        Ok(RulesetPlan { handle_fs, handle_net, scope, path_rules: paths, port_rules: ports })
    }
}

} // verus!
