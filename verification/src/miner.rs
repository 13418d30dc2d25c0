use crate::crypto::PublicKey;
use crate::network::Message;
use crate::types::block::{meets_target, nonce_after, with_nonce, Block};
use vstd::prelude::*;

verus! {

/// Mines `block` for up to `max_rounds` nonces; the block if a nonce meets its target.
pub fn mine_template(block: Block, max_rounds: u64) -> (r: Option<Block>)
    ensures
        r is Some <==> exists|k: int|
            0 <= k < max_rounds && meets_target(
                #[trigger] with_nonce(block.header, nonce_after(block.header.nonce, k)),
            ),
        r matches Some(b) ==> b.transactions == block.transactions && meets_target(b.header)
            && exists|k: int|
            0 <= k < max_rounds && b.header == with_nonce(
                block.header,
                #[trigger] nonce_after(block.header.nonce, k),
            ) && forall|j: int|
                0 <= j < k ==> !meets_target(
                    #[trigger] with_nonce(block.header, nonce_after(block.header.nonce, j)),
                ),
{
    let mut block = block;
    if block.mine(max_rounds) {
        Some(block)
    } else {
        None
    }
}

/// Why the miner stops: the node answered with a message it did not ask for.
#[derive(Debug, PartialEq, Eq, Structural)]
pub enum MinerError {
    UnexpectedMessage,
}

/// What the miner asks the node at each tick: whether its template still extends the
/// tip while it mines one, else for a new template paying `key`.
pub fn next_request(mining: bool, template: Option<&Block>, key: PublicKey) -> (r: Option<Message>)
    ensures
        mining ==> match template {
            Some(b) => r matches Some(Message::ValidateTemplate(t)) && t@ == b@,
            None => r is None,
        },
        !mining ==> r == Some(Message::FetchTemplate(key)),
{
    if mining {
        match template {
            Some(b) => Some(Message::ValidateTemplate(b.clone())),
            None => None,
        }
    } else {
        Some(Message::FetchTemplate(key))
    }
}

/// The template in the node's answer to a request for one.
pub fn template_of(reply: Message) -> (r: Result<Block, MinerError>)
    ensures
        match reply {
            Message::Template(b) => r matches Ok(t) && t@ == b@,
            _ => r == Err::<Block, MinerError>(MinerError::UnexpectedMessage),
        },
{
    match reply {
        Message::Template(b) => Ok(b),
        _ => Err(MinerError::UnexpectedMessage),
    }
}

/// Whether to keep mining, from the node's answer to a validation request.
pub fn keeps_mining(reply: &Message) -> (r: Result<bool, MinerError>)
    ensures
        match *reply {
            Message::TemplateValidity(v) => r == Ok::<bool, MinerError>(v),
            _ => r == Err::<bool, MinerError>(MinerError::UnexpectedMessage),
        },
{
    match reply {
        Message::TemplateValidity(v) => Ok(*v),
        _ => Err(MinerError::UnexpectedMessage),
    }
}

} // verus!
