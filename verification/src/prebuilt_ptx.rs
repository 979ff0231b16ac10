//! Selection of the precompiled PTX for a device.
//!
//! PTX is built ahead of time for a few compute capabilities.  At run time the
//! highest one that does not exceed the device's is picked.

use vstd::prelude::*;

use crate::chars::{decimal, digits_value, law_numeral_round_trip, numeral};

verus! {

/// The supported prebuilt compute capabilities, ascending.
pub const PREBUILT_SMS: [u32; 7] = [61, 70, 75, 80, 86, 89, 90];

/// The least supported device capability, the first of [`PREBUILT_SMS`].
pub const MIN_SM: u32 = 61;

/// The PTX texts, one per prebuilt capability.
#[derive(Debug)]
pub struct PtxBundle {
    pub sm61: String,
    pub sm70: String,
    pub sm75: String,
    pub sm80: String,
    pub sm86: String,
    pub sm89: String,
    pub sm90: String,
}

impl PtxBundle {
    /// The text for each prebuilt capability.
    pub open spec fn text(self, sm: u32) -> Option<Seq<char>> {
        if sm == 61 {
            Some(self.sm61@)
        } else if sm == 70 {
            Some(self.sm70@)
        } else if sm == 75 {
            Some(self.sm75@)
        } else if sm == 80 {
            Some(self.sm80@)
        } else if sm == 86 {
            Some(self.sm86@)
        } else if sm == 89 {
            Some(self.sm89@)
        } else if sm == 90 {
            Some(self.sm90@)
        } else {
            None
        }
    }
}

/// A signed number as its 32 bits read without a sign.
pub open spec fn unsigned(n: i32) -> int {
    if n >= 0 {
        n as int
    } else {
        n + 0x1_0000_0000
    }
}

/// Reads the bits of a signed number without a sign.
fn to_unsigned(n: i32) -> (r: u32)
    ensures
        r == unsigned(n),
{
    let r = n as u32;
    assert(n >= 0 ==> n as u32 == n) by (bit_vector);
    assert(n < 0 ==> n as u32 == n + 0x1_0000_0000) by (bit_vector);
    r
}

/// Encodes `(major, minor)` as a single number: `(8, 6)` is 86.
pub fn sm_code(major: i32, minor: i32) -> (r: u32)
    requires
        unsigned(major) * 10 + unsigned(minor) <= u32::MAX,
    ensures
        r == unsigned(major) * 10 + unsigned(minor),
{
    to_unsigned(major) * 10 + to_unsigned(minor)
}

/// Whether `sm` is the highest prebuilt capability up to `device_sm`.
pub open spec fn is_best_sm(sm: u32, device_sm: u32) -> bool {
    &&& PREBUILT_SMS@.contains(sm)
    &&& sm <= device_sm
    &&& forall|other: u32| #[trigger]
        PREBUILT_SMS@.contains(other) && other <= device_sm ==> other <= sm
}

/// Chooses the highest prebuilt capability up to `device_sm`.
pub fn select_prebuilt_sm(device_sm: u32) -> (r: Option<u32>)
    ensures
        match r {
            Some(sm) => is_best_sm(sm, device_sm),
            None => device_sm < MIN_SM && forall|sm: u32| #[trigger]
                PREBUILT_SMS@.contains(sm) ==> sm > device_sm,
        },
{
    let sms = PREBUILT_SMS;
    let mut best: Option<u32> = None;
    let mut i: usize = 0;
    while i < 7 && sms[i] <= device_sm
        invariant
            i <= 7,
            sms == PREBUILT_SMS,
            i == 0 ==> best is None,
            i > 0 ==> best == Some(sms@[i - 1]) && sms@[i - 1] <= device_sm,
        decreases 7 - i,
    {
        best = Some(sms[i]);
        i += 1;
    }
    proof {
        assert(sms@ =~= seq![61u32, 70, 75, 80, 86, 89, 90]);
        if i > 0 {
            assert(sms@.contains(sms@[i - 1]));
        }
    }
    best
}

/// The PTX text of a prebuilt capability.
pub fn ptx_for_sm(sm: u32, bundle: &PtxBundle) -> (r: Option<&str>)
    ensures
        match r {
            Some(text) => bundle.text(sm) == Some(text@),
            None => bundle.text(sm) is None,
        },
{
    if sm == 61 {
        Some(bundle.sm61.as_str())
    } else if sm == 70 {
        Some(bundle.sm70.as_str())
    } else if sm == 75 {
        Some(bundle.sm75.as_str())
    } else if sm == 80 {
        Some(bundle.sm80.as_str())
    } else if sm == 86 {
        Some(bundle.sm86.as_str())
    } else if sm == 89 {
        Some(bundle.sm89.as_str())
    } else if sm == 90 {
        Some(bundle.sm90.as_str())
    } else {
        None
    }
}

/// Every prebuilt capability has a text.
pub proof fn law_every_prebuilt_sm_has_ptx(bundle: PtxBundle, sm: u32)
    ensures
        PREBUILT_SMS@.contains(sm) <==> bundle.text(sm) is Some,
{
    assert(PREBUILT_SMS@ =~= seq![61u32, 70, 75, 80, 86, 89, 90]);
    let s = PREBUILT_SMS@;
    assert(s[0] == 61 && s[1] == 70 && s[2] == 75 && s[3] == 80 && s[4] == 86 && s[5] == 89 && s[6]
        == 90);
}

/// The message for a device below the least supported capability.
pub open spec fn below_minimum(device_sm: u32) -> Seq<char> {
    "GPU compute capability sm_"@ + numeral(device_sm as nat)
        + " is below the minimum supported sm_"@ + numeral(MIN_SM as nat)
}

/// Resolves the PTX text for a live device `(major, minor)`.
pub fn resolve_ptx_for_device(major: i32, minor: i32, bundle: &PtxBundle) -> (r: Result<
    (&str, u32),
    String,
>)
    requires
        unsigned(major) * 10 + unsigned(minor) <= u32::MAX,
    ensures
        ({
            let device_sm = (unsigned(major) * 10 + unsigned(minor)) as u32;
            match r {
                Ok((ptx, sm)) => is_best_sm(sm, device_sm) && bundle.text(sm) == Some(ptx@),
                Err(message) => device_sm < MIN_SM && message@ == below_minimum(device_sm),
            }
        }),
{
    let device_sm = sm_code(major, minor);
    match select_prebuilt_sm(device_sm) {
        Some(selected) => {
            proof {
                law_every_prebuilt_sm_has_ptx(*bundle, selected);
            }
            let ptx = ptx_for_sm(selected, bundle).unwrap();
            Ok((ptx, selected))
        },
        None => {
            let mut message = "GPU compute capability sm_".to_owned();
            message.append(decimal(device_sm as usize).as_str());
            message.append(" is below the minimum supported sm_");
            message.append(decimal(MIN_SM as usize).as_str());
            Err(message)
        },
    }
}

/// Which capability serves a device: each serves from its own number up to the
/// next, and the highest serves all devices above it.
pub proof fn law_capability_for_device(sm: u32, device_sm: u32)
    ensures
        is_best_sm(sm, device_sm) <==> {
            ||| sm == 61 && 61 <= device_sm < 70
            ||| sm == 70 && 70 <= device_sm < 75
            ||| sm == 75 && 75 <= device_sm < 80
            ||| sm == 80 && 80 <= device_sm < 86
            ||| sm == 86 && 86 <= device_sm < 89
            ||| sm == 89 && device_sm == 89
            ||| sm == 90 && device_sm >= 90
        },
{
    let s = PREBUILT_SMS@;
    assert(s =~= seq![61u32, 70, 75, 80, 86, 89, 90]);
    assert(s[0] == 61 && s[1] == 70 && s[2] == 75 && s[3] == 80 && s[4] == 86 && s[5] == 89 && s[6]
        == 90);
    assert(s.contains(s[0]) && s.contains(s[1]) && s.contains(s[2]) && s.contains(s[3])
        && s.contains(s[4]) && s.contains(s[5]) && s.contains(s[6]));
}

/// The text of each capability is the one that was built for it.
pub proof fn law_each_capability_has_its_text(bundle: PtxBundle)
    ensures
        bundle.text(61) == Some(bundle.sm61@),
        bundle.text(70) == Some(bundle.sm70@),
        bundle.text(75) == Some(bundle.sm75@),
        bundle.text(80) == Some(bundle.sm80@),
        bundle.text(86) == Some(bundle.sm86@),
        bundle.text(89) == Some(bundle.sm89@),
        bundle.text(90) == Some(bundle.sm90@),
{
}

/// The message for a device tells its capability and the least supported one, in
/// decimal.  The result is the numeral of the device's.
pub proof fn law_message_tells_both(device_sm: u32) -> (digits: Seq<char>)
    ensures
        digits_value(digits) == Some(device_sm as nat),
        device_sm > 0 ==> digits[0] != '0',
        below_minimum(device_sm) == "GPU compute capability sm_"@ + digits
            + " is below the minimum supported sm_61"@,
{
    reveal_strlit(" is below the minimum supported sm_");
    reveal_strlit(" is below the minimum supported sm_61");
    reveal_with_fuel(numeral, 3);
    let digits = numeral(device_sm as nat);
    law_numeral_round_trip(device_sm as nat);
    assert(numeral(61) =~= seq!['6', '1']);
    assert(" is below the minimum supported sm_"@ + numeral(61)
        =~= " is below the minimum supported sm_61"@);
    let head = "GPU compute capability sm_"@ + digits;
    assert(head + " is below the minimum supported sm_"@ + numeral(61) =~= head
        + " is below the minimum supported sm_61"@);
    digits
}

/// Reading a signed number without its sign keeps it, or raises it by the count of
/// all such numbers.
pub proof fn law_unsigned_is_congruent(n: i32)
    ensures
        0 <= unsigned(n) < 0x1_0000_0000,
        unsigned(n) == n || unsigned(n) == n + 0x1_0000_0000,
{
}

} // verus!
