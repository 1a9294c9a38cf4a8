use vstd::prelude::*;

use crate::text::{decimal, decimal_string, to_owned};

verus! {

/// Nanoseconds from the Unix epoch to now by the system clock
/// (`SystemTime::elapsed` on `UNIX_EPOCH`), or `None` when the clock reads
/// a time before the epoch. Nothing is promised of the value: it is the
/// time.
#[verifier::external_body]
fn epoch_nanos() -> (r: Option<u128>) {
    match std::time::UNIX_EPOCH.elapsed() {
        Ok(d) => Some(d.as_nanos()),
        Err(_) => None,
    }
}

/// The text of a block id: `block_` and a number of nanoseconds.
pub open spec fn is_block_id(s: Seq<char>) -> bool {
    exists|n: nat| s == "block_"@ + decimal(n)
}

/// The source of the ids that parsing gives to new blocks. It keeps, as a
/// ghost record, every id it has handed out, in order.
pub struct IdGen {
    issued: Ghost<Seq<Seq<char>>>,
}

impl IdGen {
    /// The ids handed out so far, in order.
    pub closed spec fn issued(&self) -> Seq<Seq<char>> {
        self.issued@
    }

    /// Every id handed out is a block id.
    #[verifier::type_invariant]
    pub open spec fn ids_are_block_ids(&self) -> bool {
        forall|i: int| 0 <= i < self.issued().len() ==> is_block_id(#[trigger] self.issued()[i])
    }

    /// A source that has handed out nothing yet.
    pub fn new() -> (g: IdGen)
        ensures
            g.issued() == Seq::<Seq<char>>::empty(),
    {
        IdGen { issued: Ghost(Seq::empty()) }
    }
}

/// A new block id, `block_` followed by the nanoseconds since the Unix
/// epoch (`block_0` if the clock reads a time before the epoch).
pub fn generate_id(gen: &mut IdGen) -> (id: String)
    ensures
        final(gen).issued() == old(gen).issued().push(id@),
        is_block_id(id@),
{
    let n: u128 = match epoch_nanos() {
        Some(v) => v,
        None => 0,
    };
    let mut id = to_owned("block_");
    let digits = decimal_string(n);
    id.append(digits.as_str());
    proof {
        use_type_invariant(&*gen);
        assert(id@ == "block_"@ + decimal(n as nat));
        assert(is_block_id(id@));
        let s = gen.issued@.push(id@);
        assert forall|i: int| 0 <= i < s.len() implies is_block_id(#[trigger] s[i]) by {
            if i < gen.issued@.len() {
                assert(s[i] == gen.issued()[i]);
            }
        }
    }
    gen.issued = Ghost(gen.issued@.push(id@));
    id
}

} // verus!
