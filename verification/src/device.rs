//! The choice of a device.

use vstd::prelude::*;

use crate::chars::{
    ascii_lower, chars_of, law_ascii_lower, law_numeral_round_trip, law_trimming_undoes_padding,
    law_white_space, number_value, numeral, parse_number, same_text, string_of, to_ascii_lower,
    trim, trimmed, white,
};

verus! {

/// The device that a caller asks for.
#[derive(Debug, Clone, Copy, PartialEq, Eq, Structural)]
pub enum DeviceRequest {
    /// The first CUDA device, or else the CPU.
    Auto,
    Cpu,
    /// The CUDA device of this ordinal.
    Cuda(usize),
}

/// How a model is loaded.
#[derive(Debug, Clone, Copy, PartialEq, Eq, Structural)]
pub struct ModelOptions {
    pub device: DeviceRequest,
}

impl Default for ModelOptions {
    fn default() -> (r: Self)
        ensures
            r.device == DeviceRequest::Auto,
    {
        ModelOptions { device: DeviceRequest::Auto }
    }
}

/// A CUDA device that could be opened.
#[derive(Debug, Clone, Copy, PartialEq, Eq, Structural)]
pub struct CudaState {
    pub ordinal: usize,
}

/// The device that a request comes to.
#[derive(Debug, Clone, Copy, PartialEq, Eq, Structural)]
pub enum ResolvedBackend {
    Cpu,
    Cuda(CudaState),
}

/// The CUDA device that was asked for cannot be opened.
#[derive(Debug, Clone, Copy, PartialEq, Eq, Structural)]
pub struct CudaUnavailable {
    pub ordinal: usize,
}

/// What a request comes to, given what the probe of its device found.
pub open spec fn resolved(request: DeviceRequest, probed: Option<CudaState>) -> Result<
    ResolvedBackend,
    CudaUnavailable,
> {
    match request {
        DeviceRequest::Cpu => Ok(ResolvedBackend::Cpu),
        DeviceRequest::Auto => match probed {
            Some(state) => Ok(ResolvedBackend::Cuda(state)),
            None => Ok(ResolvedBackend::Cpu),
        },
        DeviceRequest::Cuda(ordinal) => match probed {
            Some(state) => Ok(ResolvedBackend::Cuda(state)),
            None => Err(CudaUnavailable { ordinal }),
        },
    }
}

/// A request fails exactly where it is for one CUDA device and none was found, and
/// tells that device's ordinal.  The CPU serves a request for it, and one for any
/// device where none was found; else the device that was found serves.
pub proof fn law_request_is_served(request: DeviceRequest, probed: Option<CudaState>)
    ensures
        resolved(request, probed) is Err <==> request is Cuda && probed is None,
        resolved(request, probed) matches Err(e) ==> request == DeviceRequest::Cuda(e.ordinal),
        resolved(request, probed) == Ok::<ResolvedBackend, CudaUnavailable>(ResolvedBackend::Cpu)
            <==> request is Cpu || request is Auto && probed is None,
        resolved(request, probed) matches Ok(ResolvedBackend::Cuda(state)) ==> probed == Some(
            state,
        ),
{
}

impl DeviceRequest {
    /// The CUDA device that must be probed before the request is resolved.
    pub fn to_probe(&self) -> (r: Option<usize>)
        ensures
            r == (match *self {
                DeviceRequest::Auto => Some(0usize),
                DeviceRequest::Cpu => None,
                DeviceRequest::Cuda(ordinal) => Some(ordinal),
            }),
    {
        match *self {
            DeviceRequest::Auto => Some(0),
            DeviceRequest::Cpu => None,
            DeviceRequest::Cuda(ordinal) => Some(ordinal),
        }
    }

    /// Resolves the request, given what the probe of [`Self::to_probe`] found.
    /// Only a request for one CUDA device can fail.
    pub fn resolve(&self, probed: Option<CudaState>) -> (r: Result<
        ResolvedBackend,
        CudaUnavailable,
    >)
        ensures
            r == resolved(*self, probed),
            r == (match (*self, probed) {
                (DeviceRequest::Cpu, _) => Ok(ResolvedBackend::Cpu),
                (_, Some(state)) => Ok(ResolvedBackend::Cuda(state)),
                (DeviceRequest::Auto, None) => Ok(ResolvedBackend::Cpu),
                (DeviceRequest::Cuda(ordinal), None) => Err(CudaUnavailable { ordinal }),
            }),
    {
        match *self {
            DeviceRequest::Cpu => Ok(ResolvedBackend::Cpu),
            DeviceRequest::Auto => match probed {
                Some(state) => Ok(ResolvedBackend::Cuda(state)),
                None => Ok(ResolvedBackend::Cpu),
            },
            DeviceRequest::Cuda(ordinal) => match probed {
                Some(state) => Ok(ResolvedBackend::Cuda(state)),
                None => Err(CudaUnavailable { ordinal }),
            },
        }
    }
}

impl ResolvedBackend {
    /// The name of the backend: `cuda` or `cpu`.
    pub open spec fn name(self) -> Seq<char> {
        match self {
            ResolvedBackend::Cpu => "cpu"@,
            ResolvedBackend::Cuda(_) => "cuda"@,
        }
    }

    /// The name of the backend.
    pub fn tag(&self) -> (r: String)
        ensures
            r@ == self.name(),
    {
        match self {
            ResolvedBackend::Cpu => "cpu".to_owned(),
            ResolvedBackend::Cuda(_) => "cuda".to_owned(),
        }
    }
}

/// Why the name of a device is refused.
#[derive(Debug)]
pub enum DeviceError {
    /// The ordinal after `cuda:` is not a number that fits.
    InvalidOrdinal { ordinal: String },
    /// The name is none of the known ones.
    Unknown { name: String },
}

/// Whether `r` is what the name of a device comes to.  The name is read without
/// white space around it and without regard to ASCII case.
pub open spec fn is_parsed_device(r: Result<DeviceRequest, DeviceError>, name: Seq<char>) -> bool {
    let s = ascii_lower(trimmed(name));
    if s == "auto"@ {
        r == Ok::<DeviceRequest, DeviceError>(DeviceRequest::Auto)
    } else if s == "cpu"@ {
        r == Ok::<DeviceRequest, DeviceError>(DeviceRequest::Cpu)
    } else if s == "cuda"@ {
        r == Ok::<DeviceRequest, DeviceError>(DeviceRequest::Cuda(0))
    } else if s.len() >= 5 && s.take(5) == "cuda:"@ {
        match r {
            Ok(DeviceRequest::Cuda(n)) => number_value(s.skip(5)) == Some(n as nat),
            Err(DeviceError::InvalidOrdinal { ordinal }) => ordinal@ == s.skip(5) && (number_value(
                s.skip(5),
            ) matches Some(n) ==> n > usize::MAX),
            _ => false,
        }
    } else {
        r matches Err(DeviceError::Unknown { name: unknown }) && unknown@ == s
    }
}

/// Reads the name of a device: `auto`, `cpu`, `cuda`, or `cuda:` and an
/// ordinal.
pub fn parse_device(name: &str) -> (r: Result<DeviceRequest, DeviceError>)
    ensures
        is_parsed_device(r, name@),
{
    let chars = to_ascii_lower(trim(chars_of(name).as_slice()).as_slice());
    let s = string_of(chars.as_slice());
    if same_text(s.as_str(), "auto") {
        return Ok(DeviceRequest::Auto);
    }
    if same_text(s.as_str(), "cpu") {
        return Ok(DeviceRequest::Cpu);
    }
    if same_text(s.as_str(), "cuda") {
        return Ok(DeviceRequest::Cuda(0));
    }
    proof {
        reveal_strlit("cuda:");
    }
    if chars.len() >= 5 && chars[0] == 'c' && chars[1] == 'u' && chars[2] == 'd' && chars[3] == 'a'
        && chars[4] == ':' {
        assert(chars@.take(5) =~= "cuda:"@);
        let rest = tail(chars.as_slice(), 5);
        return match parse_number(rest.as_slice()) {
            Some(n) => Ok(DeviceRequest::Cuda(n)),
            None => Err(DeviceError::InvalidOrdinal { ordinal: string_of(rest.as_slice()) }),
        };
    }
    assert(chars@.len() >= 5 && chars@.take(5) == "cuda:"@ ==> chars@[0] == 'c' && chars@[1] == 'u'
        && chars@[2] == 'd' && chars@[3] == 'a' && chars@[4] == ':') by {
        if chars@.len() >= 5 && chars@.take(5) == "cuda:"@ {
            let head = chars@.take(5);
            assert(head[0] == 'c' && head[1] == 'u' && head[2] == 'd' && head[3] == 'a' && head[4]
                == ':');
        }
    }
    Err(DeviceError::Unknown { name: s })
}

/// The characters from position `n` on.
fn tail(chars: &[char], n: usize) -> (r: Vec<char>)
    requires
        n <= chars@.len(),
    ensures
        r@ == chars@.skip(n as int),
{
    let mut r: Vec<char> = Vec::new();
    let mut i: usize = n;
    while i < chars.len()
        invariant
            n <= i <= chars@.len(),
            r@ == chars@.subrange(n as int, i as int),
        decreases chars@.len() - i,
    {
        r.push(chars[i]);
        i += 1;
        assert(r@ =~= chars@.subrange(n as int, i as int));
    }
    assert(r@ =~= chars@.skip(n as int));
    r
}

/// What each outcome says of the name, white space around it and ASCII case left
/// out of account: the name is `auto`, `cpu` or `cuda`, or an ordinal follows
/// `cuda:`, or what follows it is no number that fits, or it is none of these.
pub proof fn law_device_outcome(r: Result<DeviceRequest, DeviceError>, name: Seq<char>, s: Seq<char>)
    requires
        is_parsed_device(r, name),
        s == ascii_lower(trimmed(name)),
    ensures
        r == Ok::<DeviceRequest, DeviceError>(DeviceRequest::Auto) <==> s == "auto"@,
        r == Ok::<DeviceRequest, DeviceError>(DeviceRequest::Cpu) <==> s == "cpu"@,
        r matches Ok(DeviceRequest::Cuda(n)) ==> s == "cuda"@ && n == 0 || exists|rest: Seq<char>|
            s == "cuda:"@ + rest && #[trigger] number_value(rest) == Some(n as nat),
        r matches Err(DeviceError::InvalidOrdinal { ordinal }) ==> s == "cuda:"@ + ordinal@ && (
        number_value(ordinal@) matches Some(n) ==> n > usize::MAX),
        r matches Err(DeviceError::Unknown { name: unknown }) ==> unknown@ == s && s != "cuda"@
            && forall|rest: Seq<char>| s != #[trigger] ("cuda:"@ + rest),
{
    reveal_strlit("auto");
    reveal_strlit("cpu");
    reveal_strlit("cuda");
    reveal_strlit("cuda:");
    assert("auto"@.len() == 4 && "cpu"@.len() == 3 && "cuda"@.len() == 4 && "cuda:"@.len() == 5);
    assert("auto"@[0] == 'a' && "cuda"@[0] == 'c' && "cuda:"@[0] == 'c');
    if s.len() >= 5 && s.take(5) == "cuda:"@ {
        assert(s =~= "cuda:"@ + s.skip(5));
    }
    assert forall|rest: Seq<char>| s == #[trigger] ("cuda:"@ + rest) implies s.len() >= 5 && s.take(
        5,
    ) == "cuda:"@ by {
        assert(("cuda:"@ + rest).take(5) =~= "cuda:"@);
    }
}

/// The ordinal of a CUDA device is read back: `cuda:` in any case, followed by
/// the numeral of a number that fits, with any white space around it, asks for
/// the device of that number.
pub proof fn law_ordinal_is_read_back(
    r: Result<DeviceRequest, DeviceError>,
    before: Seq<char>,
    word: Seq<char>,
    n: usize,
    after: Seq<char>,
)
    requires
        forall|k: int| 0 <= k < before.len() ==> white(#[trigger] before[k]),
        forall|k: int| 0 <= k < after.len() ==> white(#[trigger] after[k]),
        ascii_lower(word) == "cuda:"@,
        is_parsed_device(r, before + (word + numeral(n as nat)) + after),
    ensures
        r == Ok::<DeviceRequest, DeviceError>(DeviceRequest::Cuda(n)),
{
    reveal_strlit("auto");
    reveal_strlit("cpu");
    reveal_strlit("cuda");
    reveal_strlit("cuda:");
    let digits = numeral(n as nat);
    let text = word + digits;
    let s = ascii_lower(text);
    law_numeral_round_trip(n as nat);
    assert("auto"@.len() == 4 && "cpu"@.len() == 3 && "cuda"@.len() == 4 && "cuda:"@.len() == 5);
    assert(word.len() == 5);
    law_ascii_lower(word, 0);
    assert(ascii_lower(word)[0] == 'c');
    assert(word[0] == 'c' || word[0] == 'C');
    law_white_space(text[0]);
    law_white_space(text[text.len() - 1]);
    assert(text[text.len() - 1] == digits[digits.len() - 1]);
    law_trimming_undoes_padding(before, text, after);
    assert(s.take(5) =~= ascii_lower(word));
    assert forall|i: int| 0 <= i < digits.len() implies s.skip(5)[i] == digits[i] by {
        law_ascii_lower(text, 5 + i);
        assert(text[5 + i] == digits[i]);
    }
    assert(s.skip(5) =~= digits);
}

} // verus!
