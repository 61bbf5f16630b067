//! Short codes by which devices find each other.

use crate::common::Signature;
use crate::crypto::{public_key, signature_good, signature_of};
use crate::devices::DeviceId;
use crate::protocol::{next_number, NectanState};
use crate::text::{decimal, digit, push_decimal};
use crate::wire::{
    blob_bytes, encode_blob, encode_text, encode_u64, law_blob_read_back, law_text_read_back, law_u64_read_back, push_all,
    read_blob, read_text, read_u64, text_bytes, varint,
};
use vstd::prelude::*;
use vstd::string::StringExecFns;

verus! {

/// How long a code is good for, in seconds.
pub const CODE_SESSION_TTL: u64 = 120;

/// Why no device was found by a code.
#[derive(Debug, Clone, Copy, PartialEq, Eq, Structural)]
pub enum CodeLookupError {
    NotFound,
    ConnectionFailed,
    NectanService,
}

/// What the discovery service is asked for a code.
#[derive(Debug)]
pub struct CodeLookupRequest {
    pub code: String,
}

impl CodeLookupRequest {
    /// The bytes of the request.
    pub fn to_bytes(&self) -> (bytes: Vec<u8>)
        ensures
            bytes@ == text_bytes(self.code@),
    {
        encode_text(self.code.as_str())
    }
}

/// What the status of an answer says about a code; without one there was no answer.
/// A code that was found is not made use of yet.
pub fn lookup_outcome(status: Option<u16>) -> (error: CodeLookupError)
    ensures
        error == (match status {
            Some(302) => CodeLookupError::NotFound,
            Some(404) => CodeLookupError::NotFound,
            Some(_) => CodeLookupError::NectanService,
            None => CodeLookupError::ConnectionFailed,
        }),
{
    match status {
        Some(302) => CodeLookupError::NotFound,
        Some(404) => CodeLookupError::NotFound,
        Some(_) => CodeLookupError::NectanService,
        None => CodeLookupError::ConnectionFailed,
    }
}

/// What the discovery service is told to issue a code.
#[derive(Debug)]
pub struct CodeIssueRequest {
    pub device_id: DeviceId,
    pub code: String,
    pub seq_num: u64,
    pub signature: Signature,
}

/// The bytes of what the service is told to issue a code.
pub open spec fn issue_bytes(device: Seq<u8>, code: Seq<char>, seq_num: u64, signature: Seq<u8>) -> Seq<u8> {
    blob_bytes(device) + text_bytes(code) + varint(seq_num as nat) + blob_bytes(signature)
}

impl CodeIssueRequest {
    /// The bytes that are sent.
    pub fn to_bytes(&self) -> (bytes: Vec<u8>)
        ensures
            bytes@ == issue_bytes(self.device_id@, self.code@, self.seq_num, self.signature@),
    {
        let mut bytes = encode_blob(self.device_id.as_bytes().as_slice());
        push_all(&mut bytes, encode_text(self.code.as_str()));
        push_all(&mut bytes, encode_u64(self.seq_num));
        push_all(&mut bytes, encode_blob(self.signature.as_bytes().as_slice()));
        bytes
    }
}

/// A number in eight bytes, most significant first.
pub open spec fn number_bytes(n: nat) -> Seq<u8> {
    seq![
        (n / 0x100_0000_0000_0000 % 0x100) as u8,
        (n / 0x1_0000_0000_0000 % 0x100) as u8,
        (n / 0x100_0000_0000 % 0x100) as u8,
        (n / 0x1_0000_0000 % 0x100) as u8,
        (n / 0x100_0000 % 0x100) as u8,
        (n / 0x1_0000 % 0x100) as u8,
        (n / 0x100 % 0x100) as u8,
        (n % 0x100) as u8,
    ]
}

fn push_number(bytes: &mut Vec<u8>, n: u64)
    ensures
        final(bytes)@ == old(bytes)@ + number_bytes(n as nat),
{
    bytes.push((n / 0x100_0000_0000_0000 % 0x100) as u8);
    bytes.push((n / 0x1_0000_0000_0000 % 0x100) as u8);
    bytes.push((n / 0x100_0000_0000 % 0x100) as u8);
    bytes.push((n / 0x1_0000_0000 % 0x100) as u8);
    bytes.push((n / 0x100_0000 % 0x100) as u8);
    bytes.push((n / 0x1_0000 % 0x100) as u8);
    bytes.push((n / 0x100 % 0x100) as u8);
    bytes.push((n % 0x100) as u8);
    assert(bytes@ =~= old(bytes)@ + number_bytes(n as nat));
}

impl NectanState {
    /// What the discovery service is told to issue a code. It takes one sequence
    /// number, and is not made where none is known.
    pub fn issue_request(&mut self, code: &str) -> (request: Option<CodeIssueRequest>)
        ensures
            match old(self).seq_num@ {
                None => request is None && final(self).seq_num@ is None,
                Some(seq) => {
                    let signed = old(self).id() + number_bytes(seq as nat);
                    &&& request matches Some(r) && r.device_id@ == old(self).id() && r.code@ == code@ && r.seq_num == seq
                        && r.signature@ == signature_of(old(self).secret(), signed) && signature_good(
                        public_key(old(self).secret()),
                        signed,
                        r.signature@,
                    )
                    &&& final(self).seq_num@ == Some(next_number(seq))
                },
            },
            final(self).id() == old(self).id(),
            final(self).user() == old(self).user(),
            final(self).secret() == old(self).secret(),
            final(self).store == old(self).store,
            final(self).devices == old(self).devices,
            final(self).waiting() == old(self).waiting(),
            final(self).offered() == old(self).offered(),
    {
        let seq = match self.seq_num.get_and_inc() {
            Some(seq) => seq,
            None => {
                return None;
            },
        };
        let mut bytes: Vec<u8> = Vec::new();
        bytes.extend_from_slice(self.device_id.as_bytes().as_slice());
        push_number(&mut bytes, seq);
        assert(bytes@ =~= self.id() + number_bytes(seq as nat));
        Some(
            CodeIssueRequest {
                device_id: self.device_id,
                code: String::from_str(code),
                seq_num: seq,
                signature: self.sign(bytes.as_slice()),
            },
        )
    }
}

/// How often it is tried to issue a code.
pub const ISSUE_ATTEMPTS: u32 = 3;

/// What is said where a code could not be issued.
pub const ISSUE_COMPLAINT: &'static str =
    "Connection error. Make sure you are connected to the internet and try again.";

/// What follows an attempt to issue a code.
#[derive(Debug)]
pub enum IssueStep {
    /// This code is issued.
    Issued(String),
    /// Try again after so many milliseconds.
    RetryAfter(u64),
    /// No code was issued.
    Failed,
}

/// How long to wait after an attempt, in milliseconds: twice as long each time.
pub open spec fn issue_delay(attempt: nat) -> nat
    decreases attempt,
{
    if attempt <= 1 {
        200
    } else {
        2 * issue_delay((attempt - 1) as nat)
    }
}

/// What follows attempt number `attempt` to issue `code`: the status that came back,
/// and the body where it could be read. The service may choose another code.
pub fn issue_step(code: &str, attempt: u32, status: Option<u16>, body: Option<String>) -> (step: IssueStep)
    requires
        1 <= attempt <= ISSUE_ATTEMPTS,
    ensures
        match status {
            Some(202) => step matches IssueStep::Issued(issued) && issued@ == code@,
            Some(201) => step matches IssueStep::Issued(issued) && issued@ == (match body {
                Some(text) => text@,
                None => "Bad response"@,
            }),
            _ => if attempt < ISSUE_ATTEMPTS {
                step matches IssueStep::RetryAfter(delay) && delay == issue_delay(attempt as nat)
            } else {
                step is Failed
            },
        },
{
    match status {
        Some(202) => IssueStep::Issued(String::from_str(code)),
        Some(201) => match body {
            Some(text) => IssueStep::Issued(text),
            None => IssueStep::Issued(String::from_str("Bad response")),
        },
        _ => {
            if attempt >= ISSUE_ATTEMPTS {
                return IssueStep::Failed;
            }
            let mut delay: u64 = 200;
            let mut i: u32 = 1;
            while i < attempt
                invariant
                    1 <= i <= attempt < ISSUE_ATTEMPTS,
                    delay == issue_delay(i as nat),
                    delay <= 200 * i * i,
                decreases attempt - i,
            {
                assert(i == 1);
                delay = 2 * delay;
                i = i + 1;
            }
            IssueStep::RetryAfter(delay)
        },
    }
}

/// `rand::random`: any number may come out. It panics where the system has no random
/// numbers to give.
#[verifier::external_body]
fn random_number() -> (n: u64) {
    rand::random::<u64>()
}

/// The last decimal digits of some numbers.
pub open spec fn code_of(numbers: Seq<u64>) -> Seq<char> {
    numbers.map_values(|n: u64| digit((n % 10) as nat))
}

/// The code made of the last decimal digits of some numbers.
pub fn code_from(numbers: &[u64]) -> (code: String)
    ensures
        code@ == code_of(numbers@),
{
    let mut code = String::new();
    let mut i: usize = 0;
    while i < numbers.len()
        invariant
            i <= numbers@.len(),
            code@ == code_of(numbers@.take(i as int)),
        decreases numbers@.len() - i,
    {
        let ghost before = code@;
        let last: u64 = numbers[i] % 10;
        push_decimal(&mut code, last as u128);
        assert(decimal(last as nat) =~= seq![digit(last as nat)]);
        assert(code@ =~= code_of(numbers@.take(i + 1)));
        i = i + 1;
    }
    assert(numbers@.take(i as int) =~= numbers@);
    code
}

/// A new code of six decimal digits. Which one is left open.
pub fn gen_code() -> (code: String)
    ensures
        code@.len() == 6,
        forall|i: int| 0 <= i < 6 ==> '0' <= #[trigger] code@[i] <= '9',
{
    let mut numbers: Vec<u64> = Vec::new();
    while numbers.len() < 6
        invariant
            numbers@.len() <= 6,
        decreases 6 - numbers@.len(),
    {
        numbers.push(random_number());
    }
    code_from(numbers.as_slice())
}

/// A code is tried to be issued three times; the first wait is a fifth of a second, and
/// each wait behind it is twice as long as the one before.
pub proof fn law_waits_double(attempt: nat)
    requires
        attempt >= 1,
    ensures
        issue_delay(1) == 200,
        issue_delay(attempt + 1) == 2 * issue_delay(attempt),
        ISSUE_ATTEMPTS == 3,
{
}

/// The eight bytes of a number are its digits to the base 256, the most significant first.
pub proof fn law_number_bytes(n: u64)
    ensures
        ({
            let bytes = number_bytes(n as nat);
            &&& bytes.len() == 8
            &&& n == ((((((bytes[0] * 256 + bytes[1]) * 256 + bytes[2]) * 256 + bytes[3]) * 256 + bytes[4]) * 256
                + bytes[5]) * 256 + bytes[6]) * 256 + bytes[7]
        }),
{
    let a = n / 0x100;
    let b = n / 0x1_0000;
    let c = n / 0x100_0000;
    let d = n / 0x1_0000_0000;
    let e = n / 0x100_0000_0000;
    let f = n / 0x1_0000_0000_0000;
    let g = n / 0x100_0000_0000_0000;
    assert(n == 256 * a + n % 256);
    assert(a == 256 * b + a % 256);
    assert(b == 256 * c + b % 256);
    assert(c == 256 * d + c % 256);
    assert(d == 256 * e + d % 256);
    assert(e == 256 * f + e % 256);
    assert(f == 256 * g + f % 256);
    assert(g < 256);
}

/// The code made of some numbers has one character for each: its last decimal digit.
pub proof fn law_code_is_of_last_digits(numbers: Seq<u64>, i: int)
    requires
        0 <= i < numbers.len(),
    ensures
        code_of(numbers).len() == numbers.len(),
        code_of(numbers)[i] == (48 + numbers[i] % 10) as char,
        '0' <= code_of(numbers)[i] <= '9',
{
}

/// What the service is told to issue a code can be read from its bytes: the device, the
/// code, the sequence number and the signature, in this order and with nothing behind.
pub proof fn law_issue_request_reads(device: Seq<u8>, code: Seq<char>, seq_num: u64, signature: Seq<u8>)
    requires
        issue_bytes(device, code, seq_num, signature).len() <= usize::MAX,
    ensures
        ({
            let bytes = issue_bytes(device, code, seq_num, signature);
            let behind_device = bytes.skip((read_blob(bytes)->0).1 as int);
            let behind_code = behind_device.skip((read_text(behind_device)->0).1 as int);
            let behind_number = behind_code.skip((read_u64(behind_code)->0).1 as int);
            &&& read_blob(bytes) is Some && (read_blob(bytes)->0).0 == device
            &&& read_text(behind_device) is Some && (read_text(behind_device)->0).0 == code
            &&& read_u64(behind_code) is Some && (read_u64(behind_code)->0).0 == seq_num
            &&& read_blob(behind_number) == Some((signature, behind_number.len()))
        }),
{
    let d = blob_bytes(signature);
    let c = varint(seq_num as nat) + d;
    let b = text_bytes(code) + c;
    let bytes = issue_bytes(device, code, seq_num, signature);
    assert(bytes =~= blob_bytes(device) + b);
    law_blob_read_back(device, b);
    assert(bytes.skip(blob_bytes(device).len() as int) =~= b);
    law_text_read_back(code, c);
    assert(b.skip(text_bytes(code).len() as int) =~= c);
    law_u64_read_back(seq_num as nat, d);
    assert(c.skip(varint(seq_num as nat).len() as int) =~= d);
    assert(d + Seq::<u8>::empty() =~= d);
    law_blob_read_back(signature, Seq::empty());
}

} // verus!
