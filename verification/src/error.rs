use vstd::prelude::*;
use vstd::string::StringExecFns;

verus! {

/// A user-visible failure, delivered to the client inside an `Error` packet.
///
/// Infrastructure failures (I/O, codec, token library) are never shown to
/// clients verbatim; they collapse to `Internal`.
#[derive(Clone, Copy, Debug, PartialEq, Eq, Structural)]
pub enum ClientError {
    NotSupported,
    LoginFailed,
    NotLoggedIn,
    AlreadyLoggedIn,
    MojangRequestMissing,
    NotPermitted,
    NotBanned,
    Banned,
    RateLimited,
    PrivateMessageNotAccepted,
    EmptyMessage,
    MessageTooLong,
    InvalidCharacter(char),
    InvalidId,
    Internal,
}

/// The bytes of a character's code point, most significant first.
pub open spec fn char_be_bytes(c: char) -> Seq<u8> {
    seq![
        (c as u32 / 0x1000000) as u8,
        ((c as u32 / 0x10000) % 0x100) as u8,
        ((c as u32 / 0x100) % 0x100) as u8,
        (c as u32 % 0x100) as u8,
    ]
}

/// A character escaped for operator text, the way std's `escape_default`
/// renders it: backslash escapes for tab, carriage return, line feed,
/// backslash and both quotes; printable ASCII unchanged; anything else as
/// `\u{..}` with the code point in lowercase hex. This keeps a control
/// character in a message from corrupting a log line.
pub open spec fn escaped_char(c: char) -> Seq<char> {
    if c == '\t' {
        seq!['\\', 't']
    } else if c == '\r' {
        seq!['\\', 'r']
    } else if c == '\n' {
        seq!['\\', 'n']
    } else if c == '\\' {
        seq!['\\', '\\']
    } else if c == '\'' {
        seq!['\\', '\'']
    } else if c == '"' {
        seq!['\\', '"']
    } else if 0x20 <= c as u32 && c as u32 <= 0x7e {
        seq![c]
    } else {
        seq!['\\', 'u', '{'] + crate::auth::trimmed_hex(char_be_bytes(c)) + seq!['}']
    }
}

/// Renders one character as escaped operator text.
pub fn escape_char(c: char) -> (r: String)
    ensures
        r@ == escaped_char(c),
{
    let mut s = String::new();
    if c == '\t' {
        s.push('\\');
        s.push('t');
    } else if c == '\r' {
        s.push('\\');
        s.push('r');
    } else if c == '\n' {
        s.push('\\');
        s.push('n');
    } else if c == '\\' {
        s.push('\\');
        s.push('\\');
    } else if c == '\'' {
        s.push('\\');
        s.push('\'');
    } else if c == '"' {
        s.push('\\');
        s.push('"');
    } else {
        let v = c as u32;
        if 0x20 <= v && v <= 0x7e {
            s.push(c);
        } else {
            let mut bytes: Vec<u8> = Vec::new();
            bytes.push((v >> 24u32) as u8);
            bytes.push(((v >> 16u32) & 0xff) as u8);
            bytes.push(((v >> 8u32) & 0xff) as u8);
            bytes.push((v & 0xff) as u8);
            proof {
                assert(v >> 24u32 == v / 0x1000000) by (bit_vector);
                assert((v >> 16u32) & 0xff == (v / 0x10000) % 0x100) by (bit_vector);
                assert((v >> 8u32) & 0xff == (v / 0x100) % 0x100) by (bit_vector);
                assert(v & 0xff == v % 0x100) by (bit_vector);
                assert(bytes@ =~= char_be_bytes(c));
            }
            let hex = crate::auth::hex_trimmed(&bytes);
            s.push('\\');
            s.push('u');
            s.push('{');
            s.append(hex.as_str());
            s.push('}');
        }
    }
    proof {
        assert(s@ =~= escaped_char(c));
    }
    s
}

impl ClientError {
    /// The text shown for this error.
    pub open spec fn message_spec(self) -> Seq<char> {
        match self {
            ClientError::NotSupported => "method not supported"@,
            ClientError::LoginFailed => "login failed"@,
            ClientError::NotLoggedIn => "not logged in"@,
            ClientError::AlreadyLoggedIn => "already logged in"@,
            ClientError::MojangRequestMissing => "mojang request missing"@,
            ClientError::NotPermitted => "not permitted"@,
            ClientError::NotBanned => "not banned"@,
            ClientError::Banned => "banned"@,
            ClientError::RateLimited => "rate limited"@,
            ClientError::PrivateMessageNotAccepted => "private message not accepted"@,
            ClientError::EmptyMessage => "empty message"@,
            ClientError::MessageTooLong => "message was too long"@,
            ClientError::InvalidCharacter(ch) => "message contained invalid character: `"@
                + escaped_char(ch) + "`"@,
            ClientError::InvalidId => "invalid id"@,
            ClientError::Internal => "internal error"@,
        }
    }

    /// Human-readable description of the error, for operators and logs.
    pub fn message(&self) -> (r: String)
        ensures
            r@ == self.message_spec(),
    {
        match self {
            ClientError::NotSupported => "method not supported".to_owned(),
            ClientError::LoginFailed => "login failed".to_owned(),
            ClientError::NotLoggedIn => "not logged in".to_owned(),
            ClientError::AlreadyLoggedIn => "already logged in".to_owned(),
            ClientError::MojangRequestMissing => "mojang request missing".to_owned(),
            ClientError::NotPermitted => "not permitted".to_owned(),
            ClientError::NotBanned => "not banned".to_owned(),
            ClientError::Banned => "banned".to_owned(),
            ClientError::RateLimited => "rate limited".to_owned(),
            ClientError::PrivateMessageNotAccepted => "private message not accepted".to_owned(),
            ClientError::EmptyMessage => "empty message".to_owned(),
            ClientError::MessageTooLong => "message was too long".to_owned(),
            ClientError::InvalidCharacter(ch) => {
                let mut s = "message contained invalid character: `".to_owned();
                let escaped = escape_char(*ch);
                s.append(escaped.as_str());
                s.append("`");
                assert(s@ =~= self.message_spec());
                s
            },
            ClientError::InvalidId => "invalid id".to_owned(),
            ClientError::Internal => "internal error".to_owned(),
        }
    }
}

} // verus!
