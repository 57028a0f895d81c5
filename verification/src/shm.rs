//! Names of shared-memory segments.
//!
//! A segment's name is scoped by the fleet, the kind and the user that owns it.
//! A segment that needs a writer lock has a companion file, which carries no
//! data.
use vstd::prelude::*;
use vstd::string::*;

use crate::decimal::{digits, lemma_digits, push_number};

verus! {

/// Namespace of the shared-memory objects.
pub const SHM_NAMESPACE: &'static str = "orbit";

/// The name of a segment.
pub open spec fn segment_name(fleet: Seq<char>, kind: u8, uid: u32) -> Seq<char> {
    "/orbit-"@ + fleet + "-"@ + digits(kind as nat) + "-"@ + digits(uid as nat)
}

/// The name of the segment of a kind that a user owns.
pub fn ring_segment_name_for_uid(fleet_name: &str, kind: u8, uid: u32) -> (name: String)
    ensures
        name@ == segment_name(fleet_name@, kind, uid),
{
    let mut name: String = "/orbit-".to_owned();
    name.append(fleet_name);
    name.append("-");
    push_number(&mut name, kind as u64);
    name.append("-");
    push_number(&mut name, uid as u64);
    name
}

/// What follows the leading slashes of a name.
pub open spec fn without_slashes(name: Seq<char>) -> Seq<char>
    decreases name.len(),
{
    if name.len() > 0 && name[0] == '/' {
        without_slashes(name.drop_first())
    } else {
        name
    }
}

/// The path of a segment's companion file.
pub open spec fn companion(name: Seq<char>) -> Seq<char> {
    "/tmp/"@ + without_slashes(name) + ".lock"@
}

/// The path of a segment's companion file.
pub fn lock_path(shm_name: &str) -> (path: String)
    ensures
        path@ == companion(shm_name@),
{
    let len: usize = shm_name.unicode_len();
    let mut from: usize = 0;
    assert(shm_name@.subrange(0, len as int) =~= shm_name@);
    while from < len && shm_name.get_char(from) == '/'
        invariant
            from <= len,
            len == shm_name@.len(),
            without_slashes(shm_name@) == without_slashes(
                shm_name@.subrange(from as int, len as int),
            ),
        ensures
            from <= len,
            without_slashes(shm_name@) == shm_name@.subrange(from as int, len as int),
        decreases len - from,
    {
        assert(shm_name@.subrange(from as int, len as int).drop_first() =~= shm_name@.subrange(
            from + 1,
            len as int,
        ));
        from = from + 1;
    }
    let mut path: String = "/tmp/".to_owned();
    path.append(shm_name.substring_char(from, len));
    path.append(".lock");
    path
}

/// True when there is no hyphen in a text.
spec fn unhyphened(text: Seq<char>) -> bool {
    forall|i: int| 0 <= i < text.len() ==> #[trigger] text[i] != '-'
}

proof fn lemma_digits_unhyphened(value: nat)
    ensures
        unhyphened(digits(value)),
        digits(value).len() > 0,
    decreases value,
{
    if value >= 10 {
        lemma_digits_unhyphened(value / 10);
    }
}

/// Digits tell a number from every other.
proof fn lemma_digits_differ(one: nat, other: nat)
    requires
        digits(one) == digits(other),
    ensures
        one == other,
{
    lemma_digits(one);
    lemma_digits(other);
}

/// A text that ends in a hyphen and something without hyphens can be split there
/// in one way only.
proof fn lemma_last_hyphen(a: Seq<char>, b: Seq<char>, c: Seq<char>, d: Seq<char>)
    requires
        unhyphened(b),
        unhyphened(d),
        a + seq!['-'] + b == c + seq!['-'] + d,
    ensures
        a == c,
        b == d,
{
    let one = a + seq!['-'] + b;
    let other = c + seq!['-'] + d;
    assert(one.len() == a.len() + 1 + b.len());
    assert(other.len() == c.len() + 1 + d.len());
    if a.len() < c.len() {
        assert(other[c.len() as int] == '-');
        assert(one[c.len() as int] == b[c.len() - a.len() - 1]);
    } else if c.len() < a.len() {
        assert(one[a.len() as int] == '-');
        assert(other[a.len() as int] == d[a.len() - c.len() - 1]);
    }
    assert(a =~= one.subrange(0, a.len() as int));
    assert(c =~= other.subrange(0, a.len() as int));
    assert(b =~= one.subrange(a.len() as int + 1, one.len() as int));
    assert(d =~= other.subrange(a.len() as int + 1, one.len() as int));
}

/// Segments of different fleets, kinds or users have different names.
pub proof fn law_names_are_distinct(
    fleet: Seq<char>,
    kind: u8,
    uid: u32,
    other_fleet: Seq<char>,
    other_kind: u8,
    other_uid: u32,
)
    requires
        segment_name(fleet, kind, uid) == segment_name(other_fleet, other_kind, other_uid),
    ensures
        fleet == other_fleet,
        kind == other_kind,
        uid == other_uid,
{
    reveal_strlit("-");
    reveal_strlit("/orbit-");
    assert("-"@ =~= seq!['-']);
    lemma_digits_unhyphened(kind as nat);
    lemma_digits_unhyphened(uid as nat);
    lemma_digits_unhyphened(other_kind as nat);
    lemma_digits_unhyphened(other_uid as nat);
    let head = "/orbit-"@ + fleet;
    let other_head = "/orbit-"@ + other_fleet;
    lemma_last_hyphen(
        head + seq!['-'] + digits(kind as nat),
        digits(uid as nat),
        other_head + seq!['-'] + digits(other_kind as nat),
        digits(other_uid as nat),
    );
    lemma_last_hyphen(head, digits(kind as nat), other_head, digits(other_kind as nat));
    lemma_digits_differ(kind as nat, other_kind as nat);
    lemma_digits_differ(uid as nat, other_uid as nat);
    assert(fleet =~= head.subrange(7, head.len() as int));
    assert(other_fleet =~= other_head.subrange(7, other_head.len() as int));
}

/// The lock file of a segment stands beside the other temporary files, under the name of
/// the segment without its slash.
pub proof fn law_lock_file_is_named_after_its_segment(fleet: Seq<char>, kind: u8, uid: u32)
    ensures
        companion(segment_name(fleet, kind, uid)) == "/tmp/orbit-"@ + fleet + "-"@ + digits(
            kind as nat,
        ) + "-"@ + digits(uid as nat) + ".lock"@,
{
    reveal_strlit("/orbit-");
    reveal_strlit("/tmp/");
    reveal_strlit("/tmp/orbit-");
    let name = segment_name(fleet, kind, uid);
    assert(name[0] == '/');
    assert(name.drop_first()[0] == 'o');
    assert(without_slashes(name.drop_first()) == name.drop_first());
    assert(companion(name) =~= "/tmp/orbit-"@ + fleet + "-"@ + digits(kind as nat) + "-"@ + digits(
        uid as nat,
    ) + ".lock"@);
}

} // verus!
