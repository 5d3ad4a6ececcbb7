# railchain

A replicated blockchain for railway telemetry. Replicas receive OSF (Ocean
Stream Format) data from a train, cut it into blocks, chain the blocks by
SHA-256, and export them to a client that can prune what it has fetched.

The library under `src/` is verified with Verus:

- `osf`: the OSF stream header (magic line and XML text), the block
  decoder, and the reassembly of OSF datagrams;
- `blockchain`: the chain's messages, hashing and chain verification, the
  genesis block, block storage in memory, and bytes as hexadecimal text;
- `application`: block cutting, the chain on a store, the replica's
  application (exports, pruning, checkpoints), the OSF receiver's decisions,
  and the replica's load generator;
- `bft`: the ordering protocol's record of the requests already assigned a
  sequence number;
- `broadcaster`: test programs and benchmark requests;
- `export`: the exporter's checks on what it fetched;
- `victoria`: OSF blocks as VictoriaMetrics import lines;
- `cli`: the configuration of the command line tool and the OSF stream held
  in a chain.

`app/` holds what talks to the world: protobuf, XML, RON and JSON
encodings, files, sockets and the clock.
