//! Save and load: the whole sequence is serialized to the persistence
//! format under a user-given filename, with the `.tpi` extension appended
//! when missing, and a load replaces the sequence wholesale — or, on a
//! malformed file, leaves it untouched and reports `DecodeFailure`.

use vstd::prelude::*;
use vstd::string::StrSliceExecFns;
use vstd::string::StringExecFns;
use crate::codec::decode;
use crate::codec::decode_seq;
use crate::codec::encode;
use crate::codec::encode_seq;
use crate::game::GameError;
use crate::game::GameState;

verus! {

/// The extension a saved game carries.
pub open spec fn tpi_suffix() -> Seq<char> {
    seq!['.', 't', 'p', 'i']
}

/// Whether `name` already ends in `.tpi`.
pub open spec fn has_tpi_suffix(name: Seq<char>) -> bool {
    name.len() >= 4 && name.subrange(name.len() - 4, name.len() as int) == tpi_suffix()
}

/// The filename a save actually writes to: `name` itself when it already
/// ends in `.tpi`, otherwise `name` with `.tpi` appended.
pub open spec fn spec_save_filename(name: Seq<char>) -> Seq<char> {
    if has_tpi_suffix(name) {
        name
    } else {
        name + tpi_suffix()
    }
}

/// Appends the `.tpi` extension to `name` unless it is already there.
pub fn save_filename(name: &str) -> (r: String)
    ensures
        r@ == spec_save_filename(name@),
{
    proof {
        reveal_strlit(".tpi");
        assert(".tpi"@ =~= tpi_suffix());
    }
    let n = name.unicode_len();
    let has = n >= 4 && name.get_char(n - 4) == '.' && name.get_char(n - 3) == 't'
        && name.get_char(n - 2) == 'p' && name.get_char(n - 1) == 'i';
    if has {
        proof {
            assert(name@.subrange(n - 4, n as int) =~= tpi_suffix());
        }
        name.to_owned()
    } else {
        proof {
            if has_tpi_suffix(name@) {
                let suf = name@.subrange(n - 4, n as int);
                assert(suf[0] == name@[n - 4]);
                assert(suf[1] == name@[n - 3]);
                assert(suf[2] == name@[n - 2]);
                assert(suf[3] == name@[n - 1]);
            }
        }
        let mut r = name.to_owned();
        r.append(".tpi");
        r
    }
}

impl GameState {
    /// Serializes the whole sequence, as a save performs; the bytes decode
    /// back to exactly this state's entries.
    pub fn save_to_bytes(&self) -> (r: Vec<u8>)
        ensures
            r@ == encode_seq(self.model()),
            decode_seq(r@) == Some(self.model()),
    {
        encode(&self.entries)
    }

    /// Decodes `bytes` and replaces the sequence wholesale, as a load
    /// performs. On malformed input the state remains exactly what it was
    /// and `DecodeFailure` is reported.
    pub fn load_from_bytes(&mut self, bytes: &[u8]) -> (r: Result<(), GameError>)
        ensures
            match r {
                Ok(_) => decode_seq(bytes@) == Some(final (self).model()),
                Err(e) => {
                    &&& *final (self) == *old(self)
                    &&& decode_seq(bytes@) is None
                    &&& e == GameError::DecodeFailure
                },
            },
    {
        match decode(bytes) {
            Ok(v) => {
                self.entries = v;
                Ok(())
            },
            Err(e) => Err(e),
        }
    }
}

} // verus!
