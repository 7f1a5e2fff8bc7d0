use vstd::prelude::*;

verus! {

/// The priority of an item type: lowercase letters score 1 to 26, uppercase
/// 27 to 52.
pub open spec fn priority_spec(c: char) -> int {
    if (c as int) < 97 {
        c as int - 65 + 27
    } else {
        c as int - 97 + 1
    }
}

/// `c` occurs in all three strings.
pub open spec fn common(c: char, s1: Seq<char>, s2: Seq<char>, s3: Seq<char>) -> bool {
    s1.contains(c) && s2.contains(c) && s3.contains(c)
}

/// Whether the string holds the character.
fn contains_char(s: &str, c: char) -> (r: bool)
    ensures
        r == s@.contains(c),
{
    let n = s.unicode_len();
    for i in 0..n
        invariant
            n == s@.len(),
            forall|j: int| 0 <= j < i ==> s@[j] != c,
    {
        if s.get_char(i) == c {
            return true;
        }
    }
    false
}

/// The priority of the group badge: the first item type of `ip1` that all
/// three strings share.
pub fn get_group_badge_priority(ip1: &String, ip2: &String, ip3: &String) -> (r: i32)
    requires
        exists|c: char| common(c, ip1@, ip2@, ip3@),
    ensures
        exists|i: int|
            0 <= i < ip1@.len() && common(#[trigger] ip1@[i], ip1@, ip2@, ip3@) && (forall|j: int|
                0 <= j < i ==> !common(#[trigger] ip1@[j], ip1@, ip2@, ip3@)) && r as int
                == priority_spec(ip1@[i]),
{
    let n = ip1.as_str().unicode_len();
    for i in 0..n
        invariant
            n == ip1@.len(),
            forall|j: int| 0 <= j < i ==> !common(#[trigger] ip1@[j], ip1@, ip2@, ip3@),
    {
        let c = ip1.as_str().get_char(i);
        if contains_char(ip2.as_str(), c) && contains_char(ip3.as_str(), c) {
            let ci = c as i32;
            let r = if ci < 97 {
                ci - 65 + 27
            } else {
                ci - 97 + 1
            };
            proof {
                assert(ip1@.contains(c));
            }
            return r;
        }
    }
    proof {
        let c = choose|c: char| common(c, ip1@, ip2@, ip3@);
        let i = choose|i: int| 0 <= i < ip1@.len() && ip1@[i] == c;
        assert(false);
    }
    0
}

} // verus!
