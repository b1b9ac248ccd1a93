//! The JSON result envelope of a certificate verification job.
use crate::text::{append, append_usize, chars_of, decimal, push_char};
use vstd::prelude::*;

verus! {

pub const CERTIFICATE_VERIFICATION_JOB_RESULT_SCHEMA_VERSION: u32 = 1;

#[derive(Debug, Clone, Copy, PartialEq, Eq, Structural)]
pub enum CertificateVerificationJobOutcome {
    Verified,
    Rejected,
    Error,
}

/// The wire name of an outcome.
pub open spec fn outcome_text(o: CertificateVerificationJobOutcome) -> Seq<char> {
    match o {
        CertificateVerificationJobOutcome::Verified => "verified"@,
        CertificateVerificationJobOutcome::Rejected => "rejected"@,
        CertificateVerificationJobOutcome::Error => "error"@,
    }
}

impl CertificateVerificationJobOutcome {
    pub fn as_str(self) -> (s: &'static str)
        ensures
            s@ == outcome_text(self),
    {
        match self {
            CertificateVerificationJobOutcome::Verified => {
                proof {
                    reveal_strlit("verified");
                }
                "verified"
            },
            CertificateVerificationJobOutcome::Rejected => {
                proof {
                    reveal_strlit("rejected");
                }
                "rejected"
            },
            CertificateVerificationJobOutcome::Error => {
                proof {
                    reveal_strlit("error");
                }
                "error"
            },
        }
    }
}

#[derive(Debug, Clone, PartialEq, Eq)]
pub struct CertificateVerificationJobResultEnvelope {
    pub schema_version: u32,
    pub outcome: CertificateVerificationJobOutcome,
    pub model: Option<String>,
    pub property: Option<String>,
    pub certificate: Option<String>,
    pub canonical_formula: Option<String>,
    pub certificate_schema_version: Option<u32>,
    pub message: Option<String>,
}

/// The JSON escape of one character inside a string literal.
pub open spec fn escape_char(c: char) -> Seq<char> {
    if c == '"' {
        seq!['\\', '"']
    } else if c == '\\' {
        seq!['\\', '\\']
    } else if c == '\n' {
        seq!['\\', 'n']
    } else if c == '\r' {
        seq!['\\', 'r']
    } else if c == '\t' {
        seq!['\\', 't']
    } else if (c as u32) == 8 {
        seq!['\\', 'b']
    } else if (c as u32) == 12 {
        seq!['\\', 'f']
    } else if (c as u32) < 0x20 {
        seq!['\\', 'u', '0', '0', hex_char((c as u32 / 16) as nat), hex_char((c as u32 % 16) as nat)]
    } else {
        seq![c]
    }
}

/// A lower-case hexadecimal digit.
pub open spec fn hex_char(d: nat) -> char {
    if d < 10 {
        crate::text::digit_char(d)
    } else if d == 10 {
        'a'
    } else if d == 11 {
        'b'
    } else if d == 12 {
        'c'
    } else if d == 13 {
        'd'
    } else if d == 14 {
        'e'
    } else {
        'f'
    }
}

/// The escaped body of a JSON string literal.
pub open spec fn escaped(s: Seq<char>) -> Seq<char>
    decreases s.len(),
{
    if s.len() == 0 {
        Seq::empty()
    } else {
        escaped(s.drop_last()) + escape_char(s.last())
    }
}

/// A JSON string literal.
pub open spec fn json_string(s: Seq<char>) -> Seq<char> {
    seq!['"'] + escaped(s) + seq!['"']
}

fn hex_digit(d: u32) -> (c: char)
    requires
        d < 16,
    ensures
        c == hex_char(d as nat),
{
    if d < 10 {
        crate::text::digit(d as usize)
    } else if d == 10 {
        'a'
    } else if d == 11 {
        'b'
    } else if d == 12 {
        'c'
    } else if d == 13 {
        'd'
    } else if d == 14 {
        'e'
    } else {
        'f'
    }
}

/// Append a JSON string literal holding `value`.
pub fn write_json_string(out: &mut String, value: &str)
    ensures
        final(out)@ == old(out)@ + json_string(value@),
{
    let ghost start = out@;
    push_char(out, '"');
    let chars = chars_of(value);
    let mut i: usize = 0;
    while i < chars.len()
        invariant
            chars@ == value@,
            i <= chars@.len(),
            out@ == start.push('"') + escaped(chars@.subrange(0, i as int)),
        decreases chars.len() - i,
    {
        let c = chars[i];
        let ghost before = out@;
        if c == '"' {
            push_char(out, '\\');
            push_char(out, '"');
        } else if c == '\\' {
            push_char(out, '\\');
            push_char(out, '\\');
        } else if c == '\n' {
            push_char(out, '\\');
            push_char(out, 'n');
        } else if c == '\r' {
            push_char(out, '\\');
            push_char(out, 'r');
        } else if c == '\t' {
            push_char(out, '\\');
            push_char(out, 't');
        } else if (c as u32) == 8 {
            push_char(out, '\\');
            push_char(out, 'b');
        } else if (c as u32) == 12 {
            push_char(out, '\\');
            push_char(out, 'f');
        } else if (c as u32) < 32 {
            let code = c as u32;
            push_char(out, '\\');
            push_char(out, 'u');
            push_char(out, '0');
            push_char(out, '0');
            push_char(out, hex_digit(code / 16));
            push_char(out, hex_digit(code % 16));
        } else {
            push_char(out, c);
        }
        proof {
            let pre = chars@.subrange(0, i as int);
            let next = chars@.subrange(0, i + 1);
            assert(next.drop_last() =~= pre);
            assert(next.last() == c);
            assert(out@ =~= before + escape_char(c));
            assert(escaped(next) == escaped(pre) + escape_char(c));
            assert(out@ =~= start.push('"') + escaped(next));
        }
        i += 1;
    }
    push_char(out, '"');
    proof {
        assert(chars@.subrange(0, chars@.len() as int) =~= value@);
        assert(out@ =~= start + json_string(value@));
    }
}

/// `"name":` preceded by a comma unless first.
pub open spec fn field_head(name: Seq<char>, first: bool) -> Seq<char> {
    (if first {
        Seq::empty()
    } else {
        seq![',']
    }) + json_string(name) + seq![':']
}

fn field_name(out: &mut String, name: &str, first: bool)
    ensures
        final(out)@ == old(out)@ + field_head(name@, first),
{
    let ghost start = out@;
    if !first {
        push_char(out, ',');
    }
    write_json_string(out, name);
    push_char(out, ':');
    proof {
        assert(out@ =~= start + field_head(name@, first));
    }
}

/// A JSON field whose value is `null` or the given text.
pub open spec fn optional_text(value: Option<Seq<char>>) -> Seq<char> {
    match value {
        Some(v) => json_string(v),
        None => "null"@,
    }
}

/// A JSON field whose value is `null` or a number.
pub open spec fn optional_number(value: Option<u32>) -> Seq<char> {
    match value {
        Some(v) => decimal(v as nat),
        None => "null"@,
    }
}

fn field_optional_string(out: &mut String, name: &str, value: &Option<String>)
    ensures
        final(out)@ == old(out)@ + field_head(name@, false) + optional_text(
            match value {
                Some(v) => Some(v@),
                None => None,
            },
        ),
{
    let ghost start = out@;
    field_name(out, name, false);
    match value {
        Some(v) => write_json_string(out, v.as_str()),
        None => {
            proof {
                reveal_strlit("null");
            }
            append(out, "null");
        },
    }
}

fn field_optional_u32(out: &mut String, name: &str, value: Option<u32>)
    ensures
        final(out)@ == old(out)@ + field_head(name@, false) + optional_number(value),
{
    field_name(out, name, false);
    match value {
        Some(v) => append_usize(out, v as usize),
        None => {
            proof {
                reveal_strlit("null");
            }
            append(out, "null");
        },
    }
}

/// The view of an optional string.
pub open spec fn opt_view(v: Option<String>) -> Option<Seq<char>> {
    match v {
        Some(s) => Some(s@),
        None => None,
    }
}

/// The envelope as one JSON object, fields in a fixed order.
pub open spec fn envelope_json(e: CertificateVerificationJobResultEnvelope) -> Seq<char> {
    seq!['{'] + field_head("schema_version"@, true) + decimal(e.schema_version as nat) + field_head("outcome"@, false)
        + json_string(outcome_text(e.outcome)) + field_head("model"@, false) + optional_text(opt_view(e.model))
        + field_head("property"@, false) + optional_text(opt_view(e.property)) + field_head("certificate"@, false)
        + optional_text(opt_view(e.certificate)) + field_head("canonical_formula"@, false) + optional_text(
        opt_view(e.canonical_formula),
    ) + field_head("certificate_schema_version"@, false) + optional_number(e.certificate_schema_version)
        + field_head("message"@, false) + optional_text(opt_view(e.message)) + seq!['}']
}

impl CertificateVerificationJobResultEnvelope {
    pub fn verified(
        model: String,
        property: String,
        certificate: String,
        canonical_formula: String,
        certificate_schema_version: u32,
    ) -> (e: Self)
        ensures
            e == (CertificateVerificationJobResultEnvelope {
                schema_version: CERTIFICATE_VERIFICATION_JOB_RESULT_SCHEMA_VERSION,
                outcome: CertificateVerificationJobOutcome::Verified,
                model: Some(model),
                property: Some(property),
                certificate: Some(certificate),
                canonical_formula: Some(canonical_formula),
                certificate_schema_version: Some(certificate_schema_version),
                message: None,
            }),
    {
        CertificateVerificationJobResultEnvelope {
            schema_version: CERTIFICATE_VERIFICATION_JOB_RESULT_SCHEMA_VERSION,
            outcome: CertificateVerificationJobOutcome::Verified,
            model: Some(model),
            property: Some(property),
            certificate: Some(certificate),
            canonical_formula: Some(canonical_formula),
            certificate_schema_version: Some(certificate_schema_version),
            message: None,
        }
    }

    pub fn rejected(
        model: String,
        property: String,
        certificate: String,
        canonical_formula: String,
        certificate_schema_version: Option<u32>,
        message: &str,
    ) -> (e: Self)
        ensures
            e.schema_version == CERTIFICATE_VERIFICATION_JOB_RESULT_SCHEMA_VERSION,
            e.outcome == CertificateVerificationJobOutcome::Rejected,
            e.model == Some(model),
            e.property == Some(property),
            e.certificate == Some(certificate),
            e.canonical_formula == Some(canonical_formula),
            e.certificate_schema_version == certificate_schema_version,
            e.message matches Some(m) && m@ == message@,
    {
        CertificateVerificationJobResultEnvelope {
            schema_version: CERTIFICATE_VERIFICATION_JOB_RESULT_SCHEMA_VERSION,
            outcome: CertificateVerificationJobOutcome::Rejected,
            model: Some(model),
            property: Some(property),
            certificate: Some(certificate),
            canonical_formula: Some(canonical_formula),
            certificate_schema_version,
            message: Some(crate::text::owned(message)),
        }
    }

    pub fn error(
        model: Option<String>,
        property: Option<String>,
        certificate: Option<String>,
        canonical_formula: Option<String>,
        message: &str,
    ) -> (e: Self)
        ensures
            e.schema_version == CERTIFICATE_VERIFICATION_JOB_RESULT_SCHEMA_VERSION,
            e.outcome == CertificateVerificationJobOutcome::Error,
            e.model == model,
            e.property == property,
            e.certificate == certificate,
            e.canonical_formula == canonical_formula,
            e.certificate_schema_version is None,
            e.message matches Some(m) && m@ == message@,
    {
        CertificateVerificationJobResultEnvelope {
            schema_version: CERTIFICATE_VERIFICATION_JOB_RESULT_SCHEMA_VERSION,
            outcome: CertificateVerificationJobOutcome::Error,
            model,
            property,
            certificate,
            canonical_formula,
            certificate_schema_version: None,
            message: Some(crate::text::owned(message)),
        }
    }

    /// The envelope as one compact JSON object.
    pub fn to_json(&self) -> (json: String)
        ensures
            json@ == envelope_json(*self),
    {
        let mut out = String::new();
        push_char(&mut out, '{');
        field_name(&mut out, "schema_version", true);
        append_usize(&mut out, self.schema_version as usize);
        field_name(&mut out, "outcome", false);
        write_json_string(&mut out, self.outcome.as_str());
        field_optional_string(&mut out, "model", &self.model);
        field_optional_string(&mut out, "property", &self.property);
        field_optional_string(&mut out, "certificate", &self.certificate);
        field_optional_string(&mut out, "canonical_formula", &self.canonical_formula);
        field_optional_u32(&mut out, "certificate_schema_version", self.certificate_schema_version);
        field_optional_string(&mut out, "message", &self.message);
        push_char(&mut out, '}');
        assert(out@ =~= envelope_json(*self));
        out
    }
}

} // verus!
