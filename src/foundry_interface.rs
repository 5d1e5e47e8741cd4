//! The part of the session's cheat-code interface that the prompt shows.
use vstd::prelude::*;

verus! {

/// A subset of the cheat-code interface: the whole one does not fit.
pub const FOUNDRY_INTERFACE: &'static str = "
The session imports the Cheats interface from import forge-std/Vm.sol, here is the interface:

interface Cheats {
// Sets block.timestamp
function warp(uint256 newTimestamp) external;
// Sets block.height
function roll(uint256 newHeight) external;
// Sets block.basefee
function fee(uint256 newBasefee) external;
// Sets block.chainid
function chainId(uint256 newChainId) external;
// Sets tx.gasprice
function txGasPrice(uint256 newGasPrice) external;
// Sets the nonce of an account; must be higher than the current nonce of the account
function setNonce(address account, uint64 newNonce) external;
// Sets all calls' msg.sender to be the input address, until `stopPrank` is called
function startPrank(address msgSender) external;
// Resets subsequent calls' msg.sender to be `address(this)`
function stopPrank() external;
// Sets an address' balance
function deal(address account, uint256 newBalance) external;
}

Note that you can call methods on this interface using the global value 'Cheats internal constant vm', i.e; vm.deal(...)

";

} // verus!
