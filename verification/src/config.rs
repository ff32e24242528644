//! The bot's connection settings, with secrets that render only redacted.
//! Reading them from the environment is the runtime's job; these are the
//! plain values it hands over.

use vstd::prelude::*;

verus! {

/// A secret value: it can be borrowed, but renders as a row of `x`.
pub struct Secret<T> {
    value: T,
}

impl<T> Secret<T> {
    /// The secret itself, for contracts.
    pub closed spec fn spec_value(&self) -> T {
        self.value
    }

    /// Wraps a secret.
    pub fn new(value: T) -> (r: Secret<T>)
        ensures
            r.spec_value() == value,
    {
        Secret { value }
    }

    /// A borrow of the secret, for the call that needs it.
    pub fn expose(&self) -> (r: &T)
        ensures
            *r == self.spec_value(),
    {
        &self.value
    }
}

impl Secret<String> {
    /// The secret's rendering: one `x` per character, nothing more.
    pub fn redact(&self) -> (r: String)
        ensures
            r@.len() == self.spec_value()@.len(),
            forall|k: int| 0 <= k < r@.len() ==> r@[k] == 'x',
    {
        proof {
            reveal_strlit("x");
        }
        let n = self.value.as_str().unicode_len();
        let mut r = String::new();
        let mut i: usize = 0;
        while i < n
            invariant
                0 <= i <= n,
                r@.len() == i,
                forall|k: int| 0 <= k < i ==> r@[k] == 'x',
            decreases n - i,
        {
            r.append("x");
            proof {
                reveal_strlit("x");
            }
            i = i + 1;
        }
        r
    }
}

/// Where and as whom to join chat.
pub struct Irc {
    pub addr: String,
    pub name: String,
    pub pass: Secret<String>,
    pub channel: String,
}

/// The chat service's API credentials.
pub struct Twitch {
    pub client_id: String,
    pub client_secret: Secret<String>,
}

} // verus!
