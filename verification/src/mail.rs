//! Mails about due actions.

use vstd::prelude::*;

verus! {

/// How the connection to the SMTP server is secured.
#[derive(Clone, Copy, PartialEq, Eq, Structural, Debug)]
pub enum SmtpSecurity {
    /// TLS from the start of the connection.
    ImplicitTls,
    /// A plain connection upgraded with STARTTLS, which must succeed.
    StartTls,
}

/// Port 465 uses implicit TLS, any other port STARTTLS.
pub fn smtp_security(port: u16) -> (r: SmtpSecurity)
    ensures
        r == (if port == 465 {
            SmtpSecurity::ImplicitTls
        } else {
            SmtpSecurity::StartTls
        }),
{
    if port == 465 {
        SmtpSecurity::ImplicitTls
    } else {
        SmtpSecurity::StartTls
    }
}

} // verus!
