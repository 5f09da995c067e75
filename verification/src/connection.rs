//! How to connect to the database: passwords from a password file, and TLS.
use vstd::prelude::*;
use vstd::slice::slice_subrange;
use vstd::string::*;

use crate::text::{
    chars_of, copy_optional, decimal, find_char, first_index, lines, split_lines, text_of, trim,
    trimmed, write_decimal,
};

verus! {

/// The parts of a text between separators; what follows the last of `n - 1`
/// separators is one part.
pub open spec fn split_up_to(s: Seq<char>, c: char, n: nat) -> Seq<Seq<char>>
    decreases n,
{
    let i = first_index(s, c);
    if n <= 1 || i < 0 || i >= s.len() {
        seq![s]
    } else {
        seq![s.take(i)] + split_up_to(s.skip(i + 1), c, (n - 1) as nat)
    }
}

/// A field of a password file matches a value, or any.
pub open spec fn field_matches(pattern: Seq<char>, value: Seq<char>) -> bool {
    pattern == seq!['*'] || pattern == value
}

/// The password of a line of a password file, where the line is for the given
/// host, port, database and user.
pub open spec fn line_password(
    line: Seq<char>,
    host: Seq<char>,
    port: u16,
    dbname: Seq<char>,
    user: Seq<char>,
) -> Option<Seq<char>> {
    let l = trimmed(line);
    let parts = split_up_to(l, ':', 5);
    if l.len() > 0 && l[0] != '#' && parts.len() == 5 && field_matches(parts[0], host)
        && field_matches(parts[1], decimal(port as nat)) && field_matches(parts[2], dbname)
        && field_matches(parts[3], user) {
        Some(parts[4])
    } else {
        None
    }
}

/// The password of the first line that is for the given host, port, database and
/// user.
pub open spec fn first_password(
    ls: Seq<Seq<char>>,
    host: Seq<char>,
    port: u16,
    dbname: Seq<char>,
    user: Seq<char>,
) -> Option<Seq<char>>
    decreases ls.len(),
{
    if ls.len() == 0 {
        None
    } else if line_password(ls[0], host, port, dbname, user) is Some {
        line_password(ls[0], host, port, dbname, user)
    } else {
        first_password(ls.drop_first(), host, port, dbname, user)
    }
}

/// Splits at the first separators.
fn split_parts(cs: &[char], c: char, n: usize) -> (r: Vec<&[char]>)
    requires
        n >= 1,
    ensures
        r@.len() == split_up_to(cs@, c, n as nat).len(),
        forall|i: int| 0 <= i < r@.len() ==> (#[trigger] r@[i])@ == split_up_to(cs@, c, n as nat)[i],
{
    let mut r: Vec<&[char]> = Vec::new();
    let mut rest: &[char] = cs;
    let mut left: usize = n;
    let mut at: usize = find_char(rest, c);
    while left > 1 && at < rest.len()
        invariant
            1 <= left <= n,
            at == first_index(rest@, c),
            at <= rest@.len(),
            split_up_to(cs@, c, n as nat).len() == r@.len() + split_up_to(
                rest@,
                c,
                left as nat,
            ).len(),
            forall|i: int|
                0 <= i < r@.len() ==> (#[trigger] r@[i])@ == split_up_to(cs@, c, n as nat)[i],
            forall|i: int|
                0 <= i < split_up_to(rest@, c, left as nat).len() ==> split_up_to(
                    cs@,
                    c,
                    n as nat,
                )[r@.len() + i] == #[trigger] split_up_to(rest@, c, left as nat)[i],
        decreases left,
    {
        let ghost old_rest = rest@;
        let ghost old_parts = split_up_to(old_rest, c, left as nat);
        let ghost old_len = r@.len();
        let part = slice_subrange(rest, 0, at);
        let total: usize = rest.len();
        rest = slice_subrange(rest, at + 1, total);
        r.push(part);
        proof {
            assert(part@ =~= old_rest.take(at as int));
            assert(rest@ =~= old_rest.skip(at + 1));
            let parts = split_up_to(rest@, c, (left - 1) as nat);
            assert(old_parts == seq![part@] + parts);
            assert(old_parts[0] == part@);
            assert forall|i: int| 0 <= i < parts.len() implies split_up_to(cs@, c, n as nat)[old_len
                + 1 + i] == #[trigger] parts[i] by {
                assert(old_parts[i + 1] == parts[i]);
            }
        }
        left = left - 1;
        at = find_char(rest, c);
    }
    proof {
        let parts = split_up_to(rest@, c, left as nat);
        assert(parts =~= seq![rest@]);
        assert(parts[0] == rest@);
    }
    r.push(rest);
    r
}

fn same_as(a: &[char], b: &[char]) -> (r: bool)
    ensures
        r == (a@ == b@),
{
    if a.len() != b.len() {
        return false;
    }
    let r: bool = crate::text::stands_at(a, 0, b);
    assert(a@.subrange(0, b@.len() as int) =~= a@);
    r
}

fn matches_field(pattern: &[char], value: &[char]) -> (r: bool)
    ensures
        r == field_matches(pattern@, value@),
{
    if pattern.len() == 1 && pattern[0] == '*' {
        assert(pattern@ =~= seq!['*']);
        true
    } else {
        proof {
            if pattern@ == seq!['*'] {
                assert(pattern@[0] == '*');
            }
        }
        same_as(pattern, value)
    }
}

/// Looks a password up in the content of a password file.
pub fn pgpass_lookup(content: &str, host: &str, port: u16, dbname: &str, user: &str) -> (r: Option<
    String,
>)
    ensures
        (match r {
            Some(p) => Some(p@),
            None => None,
        }) == first_password(lines(content@), host@, port, dbname@, user@),
{
    let cs = chars_of(content);
    let ls = split_lines(cs.as_slice());
    let host_chars = chars_of(host);
    let port_text = write_decimal(port as u64);
    let port_chars = chars_of(port_text.as_str());
    let db_chars = chars_of(dbname);
    let user_chars = chars_of(user);
    let ghost model = lines(content@);
    let n: usize = ls.len();
    let mut i: usize = 0;
    assert(model.skip(0) =~= model);
    while i < n
        invariant
            i <= n,
            n == ls@.len(),
            n == model.len(),
            forall|k: int| 0 <= k < n ==> (#[trigger] ls@[k])@ == model[k],
            host_chars@ == host@,
            port_chars@ == decimal(port as nat),
            db_chars@ == dbname@,
            user_chars@ == user@,
            first_password(model, host@, port, dbname@, user@) == first_password(
                model.skip(i as int),
                host@,
                port,
                dbname@,
                user@,
            ),
            model == lines(content@),
        decreases n - i,
    {
        let line = trim(ls[i]);
        proof {
            let rest = model.skip(i as int);
            assert(rest[0] == model[i as int]);
            assert(rest.drop_first() =~= model.skip(i + 1));
        }
        if line.len() > 0 && line[0] != '#' {
            let parts = split_parts(line, ':', 5);
            if parts.len() == 5 && matches_field(parts[0], host_chars.as_slice()) && matches_field(
                parts[1],
                port_chars.as_slice(),
            ) && matches_field(parts[2], db_chars.as_slice()) && matches_field(
                parts[3],
                user_chars.as_slice(),
            ) {
                return Some(text_of(parts[4]));
            }
        }
        i = i + 1;
    }
    None
}

/// How much of TLS is asked for.
#[derive(Clone, Copy, Debug, PartialEq, Eq, Structural)]
pub enum SslMode {
    Disable,
    Prefer,
    Require,
    VerifyCa,
    VerifyFull,
}

/// What is negotiated with the server.
#[derive(Clone, Copy, Debug, PartialEq, Eq, Structural)]
pub enum Negotiation {
    Disable,
    Prefer,
    Require,
}

/// Where the database is, and how to reach it.
#[derive(Debug)]
pub struct DatabaseConfig {
    pub host: String,
    pub port: u16,
    pub dbname: String,
    pub user: String,
    pub ssl_mode: SslMode,
    pub ssl_root_cert: Option<String>,
    pub ssl_client_cert: Option<String>,
    pub ssl_client_key: Option<String>,
}

/// How the TLS connector is made.
#[derive(Debug)]
pub struct TlsPlan {
    /// Whether a certificate that cannot be verified is accepted.
    pub accept_invalid_certs: bool,
    /// A file with a root certificate to trust.
    pub root_certificate: Option<String>,
    /// Files with the certificate and the key of the client.
    pub identity: Option<(String, String)>,
}

/// How to connect.
#[derive(Debug)]
pub struct ConnectionPlan {
    pub negotiation: Negotiation,
    /// No connector where TLS is disabled.
    pub tls: Option<TlsPlan>,
}

/// The certificates are verified.
pub open spec fn verifies(mode: SslMode) -> bool {
    mode == SslMode::VerifyCa || mode == SslMode::VerifyFull
}

/// Plans a connection. Certificates are verified in the verifying modes alone;
/// those modes may name a root certificate. A client identity takes both a
/// certificate and a key.
pub fn plan_connection(cfg: &DatabaseConfig) -> (r: ConnectionPlan)
    ensures
        r.negotiation == match cfg.ssl_mode {
            SslMode::Disable => Negotiation::Disable,
            SslMode::Prefer => Negotiation::Prefer,
            _ => Negotiation::Require,
        },
        r.tls is None <==> cfg.ssl_mode == SslMode::Disable,
        r.tls is Some ==> r.tls->0.accept_invalid_certs == !verifies(cfg.ssl_mode),
        r.tls is Some ==> r.tls->0.root_certificate == if verifies(cfg.ssl_mode) {
            cfg.ssl_root_cert
        } else {
            None
        },
        r.tls is Some ==> r.tls->0.identity == match (cfg.ssl_client_cert, cfg.ssl_client_key) {
            (Some(cert), Some(key)) => Some((cert, key)),
            _ => None,
        },
{
    let negotiation = match cfg.ssl_mode {
        SslMode::Disable => Negotiation::Disable,
        SslMode::Prefer => Negotiation::Prefer,
        SslMode::Require | SslMode::VerifyCa | SslMode::VerifyFull => Negotiation::Require,
    };
    if cfg.ssl_mode == SslMode::Disable {
        return ConnectionPlan { negotiation, tls: None };
    }
    let verified: bool = cfg.ssl_mode == SslMode::VerifyCa || cfg.ssl_mode == SslMode::VerifyFull;
    let root_certificate: Option<String> = if verified {
        copy_optional(&cfg.ssl_root_cert)
    } else {
        None
    };
    let identity: Option<(String, String)> = match (&cfg.ssl_client_cert, &cfg.ssl_client_key) {
        (Some(cert), Some(key)) => Some((cert.clone(), key.clone())),
        _ => None,
    };
    ConnectionPlan {
        negotiation,
        tls: Some(TlsPlan { accept_invalid_certs: !verified, root_certificate, identity }),
    }
}

} // verus!
