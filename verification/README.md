# ieee802154 beacon frames, verified

Decoding and encoding of IEEE 802.15.4 beacon payloads, with Verus proofs.

- `src/mac/address.rs`: short and extended addresses (little endian), the
  decoding error, and `written`, the model of a buffer after an encoder wrote
  into it.
- `src/mac/beacon.rs`: beacon order and superframe order, the superframe
  specification, guaranteed time slot descriptors and information, pending
  addresses and the beacon itself.

Every `decode` states exactly when it fails and what it returns; every
`encode` states which bytes it writes and that the rest of the buffer is left
as it was. The proof functions `*_encode_decode` and `*_decode_encode` state
that decoding an encoding gives the value back, and that a decoded value
survives a further encode and decode unchanged.
