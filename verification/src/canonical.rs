//! Canonical keys for emotes.
//!
//! An emote is identified by a numeric platform id and a display name; its
//! canonical key is the platform's render markup `<:name:id>`. The key is
//! the unit of identity for usage tracking: two usage events refer to the
//! same emote exactly when their canonical keys are equal.

use vstd::prelude::*;
use vstd::string::StringExecFns;
use vstd::string::StrSliceExecFns;
use crate::text::{
    colon_index, decimal_of, digit_char, digit_value, lemma_colon_index_absent,
    lemma_colon_index_at, u64_to_string,
};

verus! {

/// A display name from which a canonical key can be formed: nonempty, and
/// free of the markup delimiters `<`, `:` and `>`.
pub open spec fn valid_emote_name(name: Seq<char>) -> bool {
    &&& name.len() > 0
    &&& forall|i: int|
        0 <= i < name.len() ==> #[trigger] name[i] != ':' && name[i] != '<' && name[i] != '>'
}

/// The canonical key of an emote: the render markup `<:name:id>`.
pub open spec fn canonical_key(emote_id: u64, name: Seq<char>) -> Seq<char> {
    seq!['<', ':'] + name + seq![':'] + decimal_of(emote_id as nat) + seq!['>']
}

/// Builds the canonical key (render markup) of an emote.
pub fn get_emote(emote_id: u64, name: String) -> (key: String)
    ensures
        key@ == canonical_key(emote_id, name@),
{
    proof {
        reveal_strlit("<:");
        reveal_strlit(":");
        reveal_strlit(">");
    }
    let mut key = String::from_str("<:");
    key.append(name.as_str());
    key.append(":");
    let digits = u64_to_string(emote_id);
    key.append(digits.as_str());
    key.append(">");
    proof {
        assert(key@ =~= canonical_key(emote_id, name@));
    }
    key
}

proof fn lemma_decimal_of_all_digits(n: nat)
    ensures
        forall|i: int|
            0 <= i < decimal_of(n).len() ==> digit_value(#[trigger] decimal_of(n)[i]) >= 0,
    decreases n,
{
    if n < 10 {
        assert(decimal_of(n)[0] == digit_char(n as int));
    } else {
        lemma_decimal_of_all_digits(n / 10);
        assert forall|i: int|
            0 <= i < decimal_of(n).len() implies digit_value(#[trigger] decimal_of(n)[i])
            >= 0 by {
            if i < decimal_of(n / 10).len() {
                assert(decimal_of(n)[i] == decimal_of(n / 10)[i]);
            } else {
                assert(decimal_of(n)[i] == digit_char((n % 10) as int));
            }
        }
    }
}

proof fn lemma_decimal_of_len(n: nat)
    ensures
        decimal_of(n).len() >= 1,
        n >= 10 ==> decimal_of(n).len() >= 2,
    decreases n,
{
    if n >= 10 {
        lemma_decimal_of_len(n / 10);
    }
}

proof fn lemma_digit_char_injective(a: int, b: int)
    requires
        0 <= a < 10,
        0 <= b < 10,
        digit_char(a) == digit_char(b),
    ensures
        a == b,
{
}

proof fn lemma_decimal_of_injective(a: nat, b: nat)
    requires
        decimal_of(a) == decimal_of(b),
    ensures
        a == b,
    decreases a,
{
    lemma_decimal_of_len(a);
    lemma_decimal_of_len(b);
    if a < 10 && b < 10 {
        assert(decimal_of(a)[0] == digit_char(a as int));
        assert(decimal_of(b)[0] == digit_char(b as int));
        lemma_digit_char_injective(a as int, b as int);
    } else if a < 10 {
        assert(decimal_of(a).len() == 1);
        assert(false);
    } else if b < 10 {
        assert(decimal_of(b).len() == 1);
        assert(false);
    } else {
        assert(decimal_of(a).last() == digit_char((a % 10) as int));
        assert(decimal_of(b).last() == digit_char((b % 10) as int));
        lemma_digit_char_injective((a % 10) as int, (b % 10) as int);
        assert(decimal_of(a).drop_last() =~= decimal_of(a / 10));
        assert(decimal_of(b).drop_last() =~= decimal_of(b / 10));
        lemma_decimal_of_injective(a / 10, b / 10);
    }
}

/// Law: the canonical key is the unit of identity — two well-formed emote
/// references have the same canonical key exactly when their ids and
/// display names agree.
pub proof fn lemma_canonical_key_injective(id1: u64, n1: Seq<char>, id2: u64, n2: Seq<char>)
    requires
        valid_emote_name(n1),
        valid_emote_name(n2),
        canonical_key(id1, n1) == canonical_key(id2, n2),
    ensures
        id1 == id2,
        n1 == n2,
{
    let k = canonical_key(id1, n1);
    let d1 = decimal_of(id1 as nat);
    let d2 = decimal_of(id2 as nat);
    lemma_decimal_of_all_digits(id1 as nat);
    lemma_decimal_of_all_digits(id2 as nat);
    lemma_decimal_of_len(id1 as nat);
    lemma_decimal_of_len(id2 as nat);
    assert(k[2 + n1.len() as int] == ':');
    assert(k[2 + n2.len() as int] == ':');
    assert forall|i: int| 2 <= i < 2 + n1.len() implies k[i] != ':' by {
        assert(k[i] == n1[i - 2]);
    }
    assert forall|i: int| 2 <= i < 2 + n2.len() implies k[i] != ':' by {
        assert(k[i] == n2[i - 2]);
    }
    assert(n1.len() == n2.len()) by {
        if n1.len() < n2.len() {
            assert(k[2 + n1.len() as int] != ':');
            assert(false);
        }
        if n2.len() < n1.len() {
            assert(k[2 + n2.len() as int] != ':');
            assert(false);
        }
    }
    assert(n1 =~= n2) by {
        assert forall|i: int| 0 <= i < n1.len() implies n1[i] == n2[i] by {
            assert(k[2 + i] == n1[i]);
            assert(k[2 + i] == n2[i]);
        }
    }
    assert(d1.len() == d2.len()) by {
        assert(k.len() == 2 + n1.len() + 1 + d1.len() + 1);
        assert(k.len() == 2 + n2.len() + 1 + d2.len() + 1);
    }
    assert(d1 =~= d2) by {
        assert forall|i: int| 0 <= i < d1.len() implies d1[i] == d2[i] by {
            assert(k[2 + n1.len() + 1 + i] == d1[i]);
            assert(k[2 + n2.len() + 1 + i] == d2[i]);
        }
    }
    lemma_decimal_of_injective(id1 as nat, id2 as nat);
}

/// The display name embedded in a canonical key: what stands between the
/// opening `<:` and the next `:`. A string without that shape is kept
/// whole.
pub open spec fn display_part(key: Seq<char>) -> Seq<char> {
    if key.len() >= 2 && colon_index(key.skip(2)) >= 0 {
        key.skip(2).take(colon_index(key.skip(2)))
    } else {
        key
    }
}

/// Law: extracting the display part undoes key formation — the rendered
/// leaderboard shows exactly the display name that was recorded.
pub proof fn lemma_display_of_canonical(emote_id: u64, name: Seq<char>)
    requires
        valid_emote_name(name),
    ensures
        display_part(canonical_key(emote_id, name)) == name,
{
    let k = canonical_key(emote_id, name);
    let t = k.skip(2);
    assert(t =~= name + seq![':'] + decimal_of(emote_id as nat) + seq!['>']);
    assert(t[name.len() as int] == ':');
    assert forall|j: int| 0 <= j < name.len() implies t[j] != ':' by {
        assert(t[j] == name[j]);
    }
    lemma_colon_index_at(t, name.len() as int);
    assert(t.take(name.len() as int) =~= name);
}

/// Extracts the display name from a canonical key.
pub fn display_of_key(key: &str) -> (d: String)
    ensures
        d@ == display_part(key@),
{
    let len = key.unicode_len();
    if len < 2 {
        return String::from_str(key);
    }
    let mut i: usize = 2;
    while i < len
        invariant
            2 <= i <= len,
            len == key@.len(),
            forall|j: int| 2 <= j < i ==> key@[j] != ':',
        decreases len - i,
    {
        if key.get_char(i) == ':' {
            proof {
                assert(key@.skip(2)[i - 2] == key@[i as int]);
                assert forall|j: int| 0 <= j < i - 2 implies key@.skip(2)[j] != ':' by {
                    assert(key@.skip(2)[j] == key@[j + 2]);
                }
                lemma_colon_index_at(key@.skip(2), i - 2);
            }
            let d = key.substring_char(2, i);
            proof {
                assert(d@ =~= key@.skip(2).take(i - 2));
            }
            return String::from_str(d);
        }
        i = i + 1;
    }
    proof {
        assert forall|j: int| 0 <= j < key@.skip(2).len() implies key@.skip(2)[j] != ':' by {
            assert(key@.skip(2)[j] == key@[j + 2]);
        }
        lemma_colon_index_absent(key@.skip(2));
    }
    String::from_str(key)
}

/// Checks executably that a display name is valid for key formation.
pub fn check_emote_name(name: &str) -> (b: bool)
    ensures
        b == valid_emote_name(name@),
{
    let len = name.unicode_len();
    if len == 0 {
        return false;
    }
    let mut i: usize = 0;
    while i < len
        invariant
            0 <= i <= len,
            len == name@.len(),
            forall|j: int|
                0 <= j < i ==> #[trigger] name@[j] != ':' && name@[j] != '<' && name@[j] != '>',
        decreases len - i,
    {
        let c = name.get_char(i);
        if c == ':' || c == '<' || c == '>' {
            return false;
        }
        i = i + 1;
    }
    true
}

} // verus!
