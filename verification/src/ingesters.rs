//! The scheduler's decisions: whether an ingester is due, what kind it is,
//! and how the configuration takes note that it has run.

use vstd::prelude::*;
use crate::clock::Timestamp;
use crate::config::Config;
use crate::config::Ingester;
use crate::error::CeridwenError;
use crate::strings::str_eq;

verus! {

/// The kinds of ingesters.
#[derive(Debug, Clone, Copy, PartialEq, Eq, Structural)]
pub enum IngesterKind {
    Rss,
    Wikipedia,
    Spider,
}

/// The kind that an ingester type names.
pub open spec fn kind_of(ingester_type: Seq<char>) -> Option<IngesterKind> {
    if ingester_type == "rss"@ {
        Some(IngesterKind::Rss)
    } else if ingester_type == "wikipedia"@ {
        Some(IngesterKind::Wikipedia)
    } else if ingester_type == "spider"@ {
        Some(IngesterKind::Spider)
    } else {
        None
    }
}

/// The kind of an ingester, by its type. A type that names none is an
/// unknown ingester.
pub fn ingester_kind(ingester_type: &str) -> (r: Result<IngesterKind, CeridwenError>)
    ensures
        match r {
            Ok(kind) => kind_of(ingester_type@) == Some(kind),
            Err(CeridwenError::UnknownIngester(name)) => kind_of(ingester_type@) is None && name@
                == ingester_type@,
            Err(_) => false,
        },
{
    if str_eq(ingester_type, "rss") {
        Ok(IngesterKind::Rss)
    } else if str_eq(ingester_type, "wikipedia") {
        Ok(IngesterKind::Wikipedia)
    } else if str_eq(ingester_type, "spider") {
        Ok(IngesterKind::Spider)
    } else {
        Err(CeridwenError::UnknownIngester(ingester_type.to_string()))
    }
}

/// Whether an ingester is to run at the instant `now`: its next run, which
/// is its update interval after its last, does not lie after `now`.
pub fn is_due(ingester: &Ingester, now: Timestamp) -> (due: bool)
    ensures
        due == (ingester.last_update.unix_nanos + ingester.update_interval.nanos
            <= now.unix_nanos),
{
    !ingester.last_update.plus_is_after(ingester.update_interval, now)
}

/// The place of the first ingester with a name, where there is one.
pub open spec fn first_named(targets: Seq<Ingester>, name: Seq<char>) -> Option<int> {
    if exists|i: int| is_first_named(targets, name, i) {
        Some(choose|i: int| is_first_named(targets, name, i))
    } else {
        None
    }
}

/// Whether the first ingester with a name stands at the place `i`.
pub open spec fn is_first_named(targets: Seq<Ingester>, name: Seq<char>, i: int) -> bool {
    &&& 0 <= i < targets.len()
    &&& targets[i].name@ == name
    &&& forall|j: int| 0 <= j < i ==> (#[trigger] targets[j]).name@ != name
}

/// Takes note in the configuration that the ingester `name` has run to its
/// end at the instant `now`: the first ingester of that name gets `now` as
/// the instant of its last update. Says whether there is such an ingester.
pub fn mark_updated(config: &mut Config, name: &str, now: Timestamp) -> (found: bool)
    ensures
        final(config).targets.len() == old(config).targets.len(),
        final(config).log_level == old(config).log_level,
        final(config).server == old(config).server,
        final(config).crawler == old(config).crawler,
        final(config).last_update == old(config).last_update,
        match first_named(old(config).targets@, name@) {
            Some(place) => found && final(config).targets@ == old(config).targets@.update(
                place,
                Ingester { last_update: now, ..old(config).targets[place] },
            ),
            None => !found && final(config).targets@ == old(config).targets@,
        },
{
    let mut i: usize = 0;
    while i < config.targets.len()
        invariant
            i <= config.targets.len(),
            *config == *old(config),
            forall|j: int| 0 <= j < i ==> (#[trigger] config.targets[j]).name@ != name@,
        decreases config.targets.len() - i,
    {
        if str_eq(config.targets[i].name.as_str(), name) {
            proof {
                assert(is_first_named(config.targets@, name@, i as int));
                let place = choose|p: int| is_first_named(config.targets@, name@, p);
                if place < i {
                    assert(config.targets[place].name@ != name@);
                }
                if i < place {
                    assert(config.targets[i as int].name@ != name@);
                }
            }
            config.targets[i].last_update = now;
            return true;
        }
        i += 1;
    }
    proof {
        assert forall|p: int| !is_first_named(config.targets@, name@, p) by {
            if 0 <= p < config.targets.len() {
                assert(config.targets[p].name@ != name@);
            }
        }
    }
    false
}

} // verus!
