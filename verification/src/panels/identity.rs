//! Ids for new layers.

use crate::text;
use vstd::arithmetic::power2;
use vstd::prelude::*;
use vstd::string::StringExecFns;

verus! {

/// A hexadecimal digit, in lower case.
pub open spec fn hex_digit(d: nat) -> char {
    if d < 10 {
        ('0' as int + d) as char
    } else {
        ('a' as int + (d - 10)) as char
    }
}

/// The hexadecimal digit at place `i` of a number of thirty-two such digits, the
/// highest one being at place zero.
pub open spec fn nibble(bits: nat, i: nat) -> nat {
    (bits / power2::pow2((4 * (31 - i)) as nat)) % 16
}

/// Whether a hyphen stands at place `i` of the text of an id.
pub open spec fn is_hyphen(i: int) -> bool {
    i == 8 || i == 13 || i == 18 || i == 23
}

/// How many hyphens stand in front of place `i` of the text of an id.
pub open spec fn hyphens_before(i: int) -> int {
    if i < 9 {
        0
    } else if i < 14 {
        1
    } else if i < 19 {
        2
    } else if i < 24 {
        3
    } else {
        4
    }
}

/// The text of an id: its digits in groups of eight, four, four, four and twelve,
/// with hyphens between the groups.
pub open spec fn hyphenated(bits: u128) -> Seq<char> {
    Seq::new(
        36,
        |i: int|
            if is_hyphen(i) {
                '-'
            } else {
                hex_digit(nibble(bits as nat, (i - hyphens_before(i)) as nat))
            },
    )
}

/// Whether the bits are those of a random id: of version four, and of the variant
/// that goes with it.
pub open spec fn is_random_id(bits: u128) -> bool {
    &&& (bits as nat / power2::pow2(76)) % 16 == 4
    &&& (bits as nat / power2::pow2(62)) % 4 == 2
}

/// Bits for a new id, from `uuid::Uuid::new_v4` and read by `uuid::Uuid::as_u128`.
/// All but six of them are drawn at random; claimed are those six, which give the
/// version and the variant. That no bits are drawn twice is likely, not certain, and
/// is not claimed. Where the system gives no random bytes the call panics and nothing is
/// returned.
#[verifier::external_body]
fn random_bits() -> (r: u128)
    ensures
        is_random_id(r),
{
    uuid::Uuid::new_v4().as_u128()
}

/// The text of an id, as `uuid::Uuid` displays it: lower case, with hyphens, the
/// highest digit first.
#[verifier::external_body]
fn bits_text(bits: u128) -> (r: String)
    ensures
        r@ == hyphenated(bits),
{
    uuid::Uuid::from_u128(bits).to_string()
}

/// The id of a layer that was made with the bits given.
pub open spec fn layer_id(bits: u128) -> Seq<char> {
    "layer-"@ + hyphenated(bits)
}

/// The name of the layer that follows on as many others as given.
pub open spec fn layer_name(count: nat) -> Seq<char> {
    "Layer "@ + text::decimal(count + 1)
}

/// A layer that is about to be made.
pub struct NewLayer {
    pub id: String,
    pub name: String,
}

impl NewLayer {
    /// The layer to make with the bits given, where there are `count` layers.
    pub fn with_bits(bits: u128, count: usize) -> (r: NewLayer)
        requires
            count < usize::MAX,
        ensures
            r.id@ == layer_id(bits),
            r.name@ == layer_name(count as nat),
    {
        let mut id: String = "layer-".to_owned();
        id.append(bits_text(bits).as_str());
        let mut name: String = "Layer ".to_owned();
        text::push_decimal(&mut name, (count + 1) as u128);
        NewLayer { id, name }
    }

    /// The layer to make where there are `count` layers, with an id drawn at random.
    pub fn new(count: usize) -> (r: NewLayer)
        requires
            count < usize::MAX,
        ensures
            exists|bits: u128| is_random_id(bits) && r.id@ == #[trigger] layer_id(bits),
            r.name@ == layer_name(count as nat),
    {
        let bits: u128 = random_bits();
        NewLayer::with_bits(bits, count)
    }

    /// The active layer once the layer was made, or could not be: a layer that was
    /// made becomes the active one.
    pub fn active_after(self, made: bool, active: Option<String>) -> (r: Option<String>)
        ensures
            r == if made {
                Some(self.id)
            } else {
                active
            },
    {
        if made {
            Some(self.id)
        } else {
            active
        }
    }
}

/// Two numbers of thirty-two digits whose first `k` digits are equal are equal as far
/// as those digits go.
proof fn lemma_leading_digits(a: u128, b: u128, k: nat)
    requires
        k <= 32,
        forall|i: nat| i < k ==> nibble(a as nat, i) == nibble(b as nat, i),
    ensures
        a as nat / power2::pow2((4 * (32 - k)) as nat) == b as nat / power2::pow2(
            (4 * (32 - k)) as nat,
        ),
    decreases k,
{
    if k == 0 {
        power2::lemma2_to64();
        power2::lemma_pow2_adds(64, 64);
        assert(a as nat / power2::pow2(128) == 0) by {
            vstd::arithmetic::div_mod::lemma_basic_div(a as int, power2::pow2(128) as int);
        }
        assert(b as nat / power2::pow2(128) == 0) by {
            vstd::arithmetic::div_mod::lemma_basic_div(b as int, power2::pow2(128) as int);
        }
    } else {
        let low = (4 * (32 - k)) as nat;
        lemma_leading_digits(a, b, (k - 1) as nat);
        assert(nibble(a as nat, (k - 1) as nat) == nibble(b as nat, (k - 1) as nat));
        lemma_digit_above(a as nat, low);
        lemma_digit_above(b as nat, low);
    }
}

/// A number cut at bit `low` is made of the number cut four bits higher and of the
/// digit between the two.
proof fn lemma_digit_above(a: nat, low: nat)
    ensures
        a / power2::pow2(low) == 16 * (a / power2::pow2(low + 4)) + (a / power2::pow2(low)) % 16,
{
    power2::lemma_pow2_adds(low, 4);
    power2::lemma2_to64();
    power2::lemma_pow2_pos(low);
    vstd::arithmetic::div_mod::lemma_div_denominator(a as int, power2::pow2(low) as int, 16);
    vstd::arithmetic::div_mod::lemma_fundamental_div_mod((a / power2::pow2(low)) as int, 16);
}

/// Layers that were made with different bits have different ids.
pub proof fn law_ids_differ(a: u128, b: u128)
    requires
        a != b,
    ensures
        layer_id(a) != layer_id(b),
{
    if layer_id(a) == layer_id(b) {
        let start = "layer-"@.len();
        assert forall|i: int| 0 <= i < 36 implies hyphenated(a)[i] == hyphenated(b)[i] by {
            assert(layer_id(a)[start + i] == hyphenated(a)[i]);
            assert(layer_id(b)[start + i] == hyphenated(b)[i]);
        }
        assert forall|i: nat| i < 32 implies nibble(a as nat, i) == nibble(b as nat, i) by {
            let at: int = if i < 8 {
                i as int
            } else if i < 12 {
                i as int + 1
            } else if i < 16 {
                i as int + 2
            } else if i < 20 {
                i as int + 3
            } else {
                i as int + 4
            };
            assert(hyphenated(a)[at] == hyphenated(b)[at]);
            assert(at - hyphens_before(at) == i);
        }
        lemma_leading_digits(a, b, 32);
        power2::lemma2_to64();
        vstd::arithmetic::div_mod::lemma_div_basics(a as int);
        vstd::arithmetic::div_mod::lemma_div_basics(b as int);
        assert(false);
    }
}

/// A new layer is called by the number that follows on those that there are, so that the first
/// is "Layer 1", and two new ones after different numbers of layers are called differently.
pub proof fn law_new_layer_is_numbered(count: nat, other: nat)
    ensures
        layer_name(count) == "Layer "@ + text::decimal(count + 1),
        count != other ==> layer_name(count) != layer_name(other),
{
    if count != other && layer_name(count) == layer_name(other) {
        let start = "Layer "@.len() as int;
        let a = text::decimal(count + 1);
        let b = text::decimal(other + 1);
        let all = layer_name(count);
        assert(all.skip(start) =~= a);
        assert(layer_name(other).skip(start) =~= b);
        text::law_decimal_reads_back(count + 1);
        text::law_decimal_reads_back(other + 1);
        assert(false);
    }
}

/// The id of a layer is "layer-" and thirty-six signs: thirty-two digits from zero to f, and
/// four hyphens that part them.
pub proof fn law_id_is_written(bits: u128, i: int)
    requires
        0 <= i < 36,
    ensures
        ({
            let id = layer_id(bits);
            let sign = id["layer-"@.len() + i];
            &&& id.len() == "layer-"@.len() + 36
            &&& id.subrange(0, "layer-"@.len() as int) == "layer-"@
            &&& i == 8 || i == 13 || i == 18 || i == 23 ==> sign == '-'
            &&& !(i == 8 || i == 13 || i == 18 || i == 23) ==> '0' <= sign <= '9' || 'a' <= sign
                <= 'f'
        }),
{
    let id = layer_id(bits);
    assert(id.subrange(0, "layer-"@.len() as int) =~= "layer-"@);
    assert(id["layer-"@.len() + i] == hyphenated(bits)[i]);
}

} // verus!
