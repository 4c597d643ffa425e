//! Pure decisions behind sending a confirmation email.
//!
//! The send itself is an outside collaborator (an HTTP call to the mail
//! provider); this module holds everything that can be decided without the
//! network: whether the configuration allows a send at all, the exact
//! confirmation URL to embed, and how a provider response maps to success
//! or failure.

use vstd::prelude::*;

verus! {

/// Configuration for the dispatch path. The credential and the "from"
/// address are optional at construction and checked before any send.
pub struct Config {
    pub sendgrid_api_key: Option<String>,
    pub from_email: Option<String>,
    pub base_url: String,
}

/// Why a send failed: a configuration error, detected before any network
/// attempt, or a provider failure, carrying the provider's status and
/// response body for diagnosis.
#[derive(Debug)]
pub enum SendError {
    MissingApiKey,
    MissingFromEmail,
    Provider { status: u16, body: String },
}

/// The character for one decimal digit.
pub open spec fn digit_char(d: nat) -> char {
    if d == 0 {
        '0'
    } else if d == 1 {
        '1'
    } else if d == 2 {
        '2'
    } else if d == 3 {
        '3'
    } else if d == 4 {
        '4'
    } else if d == 5 {
        '5'
    } else if d == 6 {
        '6'
    } else if d == 7 {
        '7'
    } else if d == 8 {
        '8'
    } else {
        '9'
    }
}

/// The decimal rendering of `n`, most significant digit first, with no
/// leading zero except for zero itself.
pub open spec fn dec_digits(n: nat) -> Seq<char>
    decreases n,
{
    if n < 10 {
        seq![digit_char(n)]
    } else {
        dec_digits(n / 10).push(digit_char(n % 10))
    }
}

/// One decimal digit as a string slice.
fn digit_str(d: u16) -> (r: &'static str)
    requires
        d < 10,
    ensures
        r@ == seq![digit_char(d as nat)],
{
    proof {
        reveal_strlit("0");
        reveal_strlit("1");
        reveal_strlit("2");
        reveal_strlit("3");
        reveal_strlit("4");
        reveal_strlit("5");
        reveal_strlit("6");
        reveal_strlit("7");
        reveal_strlit("8");
        reveal_strlit("9");
    }
    match d {
        0 => {
            proof {
                assert("0"@ =~= seq![digit_char(0)]);
            }
            "0"
        },
        1 => {
            proof {
                assert("1"@ =~= seq![digit_char(1)]);
            }
            "1"
        },
        2 => {
            proof {
                assert("2"@ =~= seq![digit_char(2)]);
            }
            "2"
        },
        3 => {
            proof {
                assert("3"@ =~= seq![digit_char(3)]);
            }
            "3"
        },
        4 => {
            proof {
                assert("4"@ =~= seq![digit_char(4)]);
            }
            "4"
        },
        5 => {
            proof {
                assert("5"@ =~= seq![digit_char(5)]);
            }
            "5"
        },
        6 => {
            proof {
                assert("6"@ =~= seq![digit_char(6)]);
            }
            "6"
        },
        7 => {
            proof {
                assert("7"@ =~= seq![digit_char(7)]);
            }
            "7"
        },
        8 => {
            proof {
                assert("8"@ =~= seq![digit_char(8)]);
            }
            "8"
        },
        _ => {
            proof {
                assert("9"@ =~= seq![digit_char(9)]);
            }
            "9"
        },
    }
}

/// Renders `n` in decimal.
fn u16_to_decimal(n: u16) -> (r: String)
    ensures
        r@ == dec_digits(n as nat),
    decreases n,
{
    if n < 10 {
        String::from_str(digit_str(n))
    } else {
        let mut r = u16_to_decimal(n / 10);
        r.append(digit_str(n % 10));
        proof {
            assert(dec_digits((n / 10) as nat).push(digit_char((n % 10) as nat)) =~= dec_digits(
                (n / 10) as nat,
            ) + seq![digit_char((n % 10) as nat)]);
        }
        r
    }
}

impl SendError {
    /// The human-readable cause carried by this failure: the name of the
    /// missing configuration field, or the provider's status and body.
    pub open spec fn message_spec(&self) -> Seq<char> {
        match self {
            SendError::MissingApiKey => "missing SENDGRID_API_KEY"@,
            SendError::MissingFromEmail => "missing FROM_EMAIL"@,
            SendError::Provider { status, body } => "sendgrid returned "@ + dec_digits(
                *status as nat,
            ) + ": "@ + body@,
        }
    }

    /// Renders the failure's human-readable cause.
    pub fn message(&self) -> (m: String)
        ensures
            m@ == self.message_spec(),
    {
        match self {
            SendError::MissingApiKey => String::from_str("missing SENDGRID_API_KEY"),
            SendError::MissingFromEmail => String::from_str("missing FROM_EMAIL"),
            SendError::Provider { status, body } => {
                let mut m = String::from_str("sendgrid returned ");
                let rendered = u16_to_decimal(*status);
                m.append(rendered.as_str());
                m.append(": ");
                m.append(body.as_str());
                m
            },
        }
    }
}

/// Everything a dispatcher needs to perform the provider call: the
/// credential, the "from" address, and the fully built confirmation URL.
pub struct SendRequest {
    pub api_key: String,
    pub from_email: String,
    pub confirm_url: String,
}

/// `s` without its trailing `'/'` characters.
pub open spec fn trim_trailing_slashes(s: Seq<char>) -> Seq<char>
    decreases s.len(),
{
    if s.len() > 0 && s.last() == '/' {
        trim_trailing_slashes(s.drop_last())
    } else {
        s
    }
}

/// The confirmation path, up to and including the query key; the token is
/// appended verbatim after it.
pub open spec fn confirm_path() -> Seq<char> {
    "/api/v1/newsletter/confirm?token="@
}

/// The confirmation URL for `base_url` and `token`: the base with trailing
/// slashes stripped, then the fixed confirmation path, then the token.
pub open spec fn confirm_url_of(base_url: Seq<char>, token: Seq<char>) -> Seq<char> {
    trim_trailing_slashes(base_url) + confirm_path() + token
}

/// When every character from `end` on is a slash and the one before `end`
/// (if any) is not, trimming keeps exactly the first `end` characters.
proof fn lemma_trim_take(s: Seq<char>, end: int)
    requires
        0 <= end <= s.len(),
        forall|j: int| end <= j < s.len() ==> s[j] == '/',
        end == 0 || s[end - 1] != '/',
    ensures
        trim_trailing_slashes(s) == s.take(end),
    decreases s.len(),
{
    if s.len() == end {
        assert(s.take(end) =~= s);
    } else {
        assert(s.last() == '/');
        lemma_trim_take(s.drop_last(), end);
        assert(s.drop_last().take(end) =~= s.take(end));
    }
}

/// Builds the confirmation URL: the base URL with its trailing slashes
/// stripped, then the fixed confirmation path, then the token verbatim.
pub fn confirmation_url(base_url: &str, token: &str) -> (url: String)
    ensures
        url@ == confirm_url_of(base_url@, token@),
{
    let len = base_url.unicode_len();
    let mut end = len;
    while end > 0 && base_url.get_char(end - 1) == '/'
        invariant
            end <= len,
            len == base_url@.len(),
            forall|j: int| end <= j < len ==> base_url@[j] == '/',
        decreases end,
    {
        end = end - 1;
    }
    proof {
        lemma_trim_take(base_url@, end as int);
        assert(base_url@.subrange(0, end as int) =~= base_url@.take(end as int));
    }
    let prefix = base_url.substring_char(0, end);
    let mut url = String::from_str(prefix);
    url.append("/api/v1/newsletter/confirm?token=");
    url.append(token);
    url
}

/// Checks the configuration and builds the provider request: fails with a
/// configuration error, naming the missing field, before any network work
/// could start. The credential is checked first, as dispatchers report it
/// first.
pub fn prepare_send(config: &Config, token: &str) -> (r: Result<SendRequest, SendError>)
    ensures
        r is Ok <==> (config.sendgrid_api_key is Some && config.from_email is Some),
        (r matches Ok(req) ==> req.api_key@ == config.sendgrid_api_key->0@
            && req.from_email@ == config.from_email->0@ && req.confirm_url@ == confirm_url_of(
            config.base_url@,
            token@,
        )),
        (r matches Err(e) ==> ((e is MissingApiKey <==> config.sendgrid_api_key is None) && (
        e is MissingFromEmail <==> config.sendgrid_api_key is Some && config.from_email is None)
            && !(e is Provider))),
{
    let api_key = match &config.sendgrid_api_key {
        Some(key) => key.clone(),
        None => {
            return Err(SendError::MissingApiKey);
        },
    };
    let from_email = match &config.from_email {
        Some(addr) => addr.clone(),
        None => {
            return Err(SendError::MissingFromEmail);
        },
    };
    let confirm_url = confirmation_url(config.base_url.as_str(), token);
    Ok(SendRequest { api_key, from_email, confirm_url })
}

/// Maps the provider's reply to the outcome of a send: any status outside
/// the 2xx range is a provider failure carrying the reported status and
/// response body; a 2xx status is success.
pub fn response_outcome(status: u16, body: String) -> (r: Result<(), SendError>)
    ensures
        r is Ok <==> 200 <= status < 300,
        (r matches Err(e) ==> (e matches SendError::Provider { status: ps, body: pb } && ps
            == status && pb@ == body@)),
{
    if 200 <= status && status < 300 {
        Ok(())
    } else {
        Err(SendError::Provider { status, body })
    }
}

/// Trimming leaves no trailing slash behind.
proof fn lemma_trim_no_trailing_slash(s: Seq<char>)
    ensures
        trim_trailing_slashes(s).len() > 0 ==> trim_trailing_slashes(s).last() != '/',
    decreases s.len(),
{
    if s.len() > 0 && s.last() == '/' {
        lemma_trim_no_trailing_slash(s.drop_last());
    }
}

/// No doubled slash at the joint: the trimmed base never ends in a slash,
/// and the single separating slash is the confirmation path's own first
/// character, whatever the base URL and token.
pub proof fn lemma_url_joint_single_slash(base_url: Seq<char>, token: Seq<char>)
    ensures
        trim_trailing_slashes(base_url).len() > 0 ==> trim_trailing_slashes(base_url).last()
            != '/',
        confirm_url_of(base_url, token)[trim_trailing_slashes(base_url).len() as int] == '/',
{
    lemma_trim_no_trailing_slash(base_url);
    reveal_strlit("/api/v1/newsletter/confirm?token=");
    let trimmed = trim_trailing_slashes(base_url);
    assert(confirm_path()[0] == '/');
    assert(confirm_url_of(base_url, token)[trimmed.len() as int] == confirm_path()[0]);
}

} // verus!
