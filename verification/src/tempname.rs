use vstd::prelude::*;
use vstd::string::StringExecFns;
use crate::types::PlanError;
use crate::strutil::vec_contains;

verus! {

/// The decimal digit character for a value below ten.
pub open spec fn digit_char(d: nat) -> char {
    if d == 0 {
        '0'
    } else if d == 1 {
        '1'
    } else if d == 2 {
        '2'
    } else if d == 3 {
        '3'
    } else if d == 4 {
        '4'
    } else if d == 5 {
        '5'
    } else if d == 6 {
        '6'
    } else if d == 7 {
        '7'
    } else if d == 8 {
        '8'
    } else {
        '9'
    }
}

/// The placeholder path derived from `base` and a four-digit counter value.
pub open spec fn temp_name_of(base: Seq<char>, n: u32) -> Seq<char> {
    base + ".vimv_temp_"@ + seq![
        digit_char(((n / 1000) % 10) as nat),
        digit_char(((n / 100) % 10) as nat),
        digit_char(((n / 10) % 10) as nat),
        digit_char((n % 10) as nat),
    ]
}

/// Relies on rand::random: a sampled value; nothing is promised of it.
#[verifier::external_body]
fn random_value() -> u32 {
    rand::random::<u32>()
}

/// Relies on std::path::Path::exists: whether the path currently exists on
/// disk; the answer depends on the filesystem, so nothing is promised of it.
#[verifier::external_body]
fn path_exists(p: &String) -> bool {
    std::path::Path::new(p.as_str()).exists()
}

fn digit_str(d: u32) -> (r: &'static str)
    requires
        d < 10,
    ensures
        r@ == seq![digit_char(d as nat)],
{
    proof {
        reveal_strlit("0");
        reveal_strlit("1");
        reveal_strlit("2");
        reveal_strlit("3");
        reveal_strlit("4");
        reveal_strlit("5");
        reveal_strlit("6");
        reveal_strlit("7");
        reveal_strlit("8");
        reveal_strlit("9");
    }
    let s = if d == 0 {
        "0"
    } else if d == 1 {
        "1"
    } else if d == 2 {
        "2"
    } else if d == 3 {
        "3"
    } else if d == 4 {
        "4"
    } else if d == 5 {
        "5"
    } else if d == 6 {
        "6"
    } else if d == 7 {
        "7"
    } else if d == 8 {
        "8"
    } else {
        "9"
    };
    proof {
        assert(s@ =~= seq![digit_char(d as nat)]);
    }
    s
}

/// Builds the placeholder path for `base` and the counter value `n`.
fn make_temp_name(base: &String, n: u32) -> (r: String)
    ensures
        r@ == temp_name_of(base@, n),
{
    let mut r = base.clone();
    r.append(".vimv_temp_");
    r.append(digit_str((n / 1000) % 10));
    r.append(digit_str((n / 100) % 10));
    r.append(digit_str((n / 10) % 10));
    r.append(digit_str(n % 10));
    proof {
        assert(r@ =~= temp_name_of(base@, n));
    }
    r
}

/// Generates a placeholder path derived from `base` that is absent from
/// disk and from the `avoid` list, trying a bounded number of counter
/// values. Exhausting the attempts is an error.
pub fn get_temp_filename(base: &String, avoid: &Vec<String>) -> (r: Result<String, PlanError>)
    ensures
        r matches Ok(t) ==> !avoid.deep_view().contains(t@) && (exists|n: u32|
            t@ == temp_name_of(base@, n)),
        r matches Err(e) ==> e matches PlanError::TempNameExhausted(b) && b@ == base@,
{
    let mut tries: usize = 0;
    while tries < 10
        invariant
            tries <= 10,
        decreases 10 - tries,
    {
        let n = random_value() % 10000;
        let cand = make_temp_name(base, n);
        if !path_exists(&cand) && !vec_contains(avoid, &cand) {
            proof {
                assert(exists|m: u32| cand@ == temp_name_of(base@, m)) by {
                    assert(cand@ == temp_name_of(base@, n));
                }
            }
            return Ok(cand);
        }
        tries += 1;
    }
    Err(PlanError::TempNameExhausted(base.clone()))
}

} // verus!
