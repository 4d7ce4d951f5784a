//! Choosing what to fetch of a dependency that is not in the build
//! directory: of the versions the package hub lists, the newest one the
//! dependency accepts. Asking the hub and running `git` are the caller's.

use vstd::prelude::*;
use crate::package::{spec_parse_version, version_le, version_text, PackageVersion};
use crate::text::{push_str, string_of_str};

verus! {

/// Whether a listed version is read and lies in `min..=max` (no `max`:
/// no upper bound).
pub open spec fn acceptable(
    v: Option<(usize, usize, usize)>,
    min: (usize, usize, usize),
    max: Option<(usize, usize, usize)>,
) -> bool {
    match v {
        None => false,
        Some(t) => version_le(min, t) && match max {
            Some(m) => version_le(t, m),
            None => true,
        },
    }
}

/// The position of the version chosen among the first `k` listed: the
/// newest acceptable one, the later of equal ones.
pub open spec fn pick_among(
    listed: Seq<Seq<char>>,
    min: (usize, usize, usize),
    max: Option<(usize, usize, usize)>,
    k: int,
) -> Option<int>
    decreases k,
{
    if k <= 0 {
        None
    } else {
        let best = pick_among(listed, min, max, k - 1);
        let v = spec_parse_version(listed[k - 1]);
        if acceptable(v, min, max) && match best {
            None => true,
            Some(b) => version_le(spec_parse_version(listed[b])->0, v->0),
        } {
            Some(k - 1)
        } else {
            best
        }
    }
}

/// Of the versions the hub lists for a package, the position of the one
/// to fetch: the newest that reads as a version and lies in `min..=max`;
/// the later one when two are equal. `None` when none does.
pub fn pick_version(listed: &[String], min: &PackageVersion, max: Option<&PackageVersion>) -> (r: Option<usize>)
    ensures
        r == match pick_among(
            listed@.map_values(|s: String| s@),
            min.triple(),
            match max {
                Some(m) => Some(m.triple()),
                None => None,
            },
            listed@.len() as int,
        ) {
            Some(i) => Some(i as usize),
            None => None::<usize>,
        },
{
    let ghost lv = listed@.map_values(|s: String| s@);
    let ghost mx = match max {
        Some(m) => Some(m.triple()),
        None => None::<(usize, usize, usize)>,
    };
    let mut best: Option<(usize, PackageVersion)> = None;
    let mut i: usize = 0;
    while i < listed.len()
        invariant
            i <= listed@.len(),
            lv == listed@.map_values(|s: String| s@),
            mx == match max {
                Some(m) => Some(m.triple()),
                None => None::<(usize, usize, usize)>,
            },
            match pick_among(lv, min.triple(), mx, i as int) {
                Some(b) => best matches Some((bi, bv)) && bi == b && b < i && spec_parse_version(lv[b]) == Some(
                    bv.triple(),
                ),
                None => best is None,
            },
        decreases listed@.len() - i,
    {
        assert(lv[i as int] == listed@[i as int]@);
        match PackageVersion::parse(listed[i].as_str()) {
            Ok(v) => {
                if v.in_range(min, max) {
                    let newer = match &best {
                        None => true,
                        Some((_, bv)) => bv.le(&v),
                    };
                    if newer {
                        best = Some((i, v));
                    }
                }
            },
            Err(_) => {},
        }
        i = i + 1;
    }
    match best {
        Some((bi, _)) => Some(bi),
        None => None,
    }
}

/// The message when no listed version fits: `min..max`, with `*` for no
/// upper bound.
pub open spec fn no_matching_version_message(
    name: Seq<char>,
    min: (usize, usize, usize),
    max: Option<(usize, usize, usize)>,
) -> Seq<char> {
    "no version of `"@ + name + "` satisfies "@ + version_text(min) + ".."@ + match max {
        Some(m) => version_text(m),
        None => "*"@,
    }
}

pub fn no_matching_version(name: &str, min: &PackageVersion, max: Option<&PackageVersion>) -> (r: String)
    ensures
        r@ == no_matching_version_message(
            name@,
            min.triple(),
            match max {
                Some(m) => Some(m.triple()),
                None => None,
            },
        ),
{
    let mut s = string_of_str("no version of `");
    push_str(&mut s, name);
    push_str(&mut s, "` satisfies ");
    let lo = min.to_version_string();
    push_str(&mut s, lo.as_str());
    push_str(&mut s, "..");
    match max {
        Some(m) => {
            let hi = m.to_version_string();
            push_str(&mut s, hi.as_str());
        },
        None => {
            push_str(&mut s, "*");
        },
    }
    s
}


/// `w` comes no later than `v` in the order of versions: by major, then
/// minor, then patch.
pub open spec fn not_newer(w: (usize, usize, usize), v: (usize, usize, usize)) -> bool {
    w.0 < v.0 || (w.0 == v.0 && (w.1 < v.1 || (w.1 == v.1 && w.2 <= v.2)))
}

proof fn lemma_pick_among_newest(
    listed: Seq<Seq<char>>,
    min: (usize, usize, usize),
    max: Option<(usize, usize, usize)>,
    k: int,
)
    requires
        0 <= k <= listed.len(),
    ensures
        pick_among(listed, min, max, k) matches Some(i) ==> {
            &&& 0 <= i < k
            &&& acceptable(spec_parse_version(listed[i]), min, max)
            &&& forall|j: int| 0 <= j < k && #[trigger] acceptable(spec_parse_version(listed[j]), min, max) ==> not_newer(
                spec_parse_version(listed[j])->0,
                spec_parse_version(listed[i])->0,
            )
            &&& forall|j: int| i < j < k && #[trigger] acceptable(spec_parse_version(listed[j]), min, max) ==> !not_newer(
                spec_parse_version(listed[i])->0,
                spec_parse_version(listed[j])->0,
            )
        },
        pick_among(listed, min, max, k) is None ==> forall|j: int| 0 <= j < k ==> !#[trigger] acceptable(
            spec_parse_version(listed[j]),
            min,
            max,
        ),
    decreases k,
{
    if k > 0 {
        lemma_pick_among_newest(listed, min, max, k - 1);
    }
}

/// The version picked is the newest acceptable one, by the full order of
/// major, minor and patch; of equal ones, the last listed. None is picked
/// only when no listed version is acceptable.
pub proof fn lemma_pick_version_newest(
    listed: Seq<Seq<char>>,
    min: (usize, usize, usize),
    max: Option<(usize, usize, usize)>,
)
    ensures
        pick_among(listed, min, max, listed.len() as int) matches Some(i) ==> {
            &&& 0 <= i < listed.len()
            &&& acceptable(spec_parse_version(listed[i]), min, max)
            &&& forall|j: int| 0 <= j < listed.len() && #[trigger] acceptable(spec_parse_version(listed[j]), min, max)
                ==> not_newer(spec_parse_version(listed[j])->0, spec_parse_version(listed[i])->0)
            &&& forall|j: int| i < j < listed.len() && #[trigger] acceptable(spec_parse_version(listed[j]), min, max)
                ==> !not_newer(spec_parse_version(listed[i])->0, spec_parse_version(listed[j])->0)
        },
        pick_among(listed, min, max, listed.len() as int) is None ==> forall|j: int| 0 <= j < listed.len() ==> !#[trigger] acceptable(
            spec_parse_version(listed[j]),
            min,
            max,
        ),
{
    lemma_pick_among_newest(listed, min, max, listed.len() as int);
}

} // verus!
