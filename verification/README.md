# open_media_transport

Open Media Transport in Rust, verified with Verus: the VMX video codec, the
wire format, senders, receivers and discovery.

`src/` is the library. It does no input or output: it holds the codec, the
parsers and the state machines, each function with a contract that Verus
proves. `app/` is the command line tool, with the sockets, threads and clocks
around the library. `tests/` runs the library on concrete values.

## Modules

| module | what it holds |
| --- | --- |
| `vmx` | the codec: bit streams, transform, slices, container, encoder, decoder |
| `wire`, `frame`, `deframer` | the frames on a connection, written and cut out of a byte stream |
| `command`, `redirect`, `xml`, `document` | the metadata that connections exchange |
| `media` | decoded video and audio, pixel formats |
| `sender` | what a sender sends to whom, its queues and redirects |
| `receiver` | which connections a receiver opens, when it tries again, what it hands on |
| `discovery`, `address`, `table` | names and addresses of sources, and the sources that are known |
| `discovery_server` | both sides of a discovery server, and its messages |
| `clock`, `float`, `text`, `ip` | time stamps, rate arithmetic, text and addresses |
| `image`, `picture`, `cli` | test pattern and picture files, pixels of decoded frames, the arguments of the tool |

## What is proved

Each contract says what its function returns or changes for every input, in
terms of spec functions on sequences and integers. Beside them stand the laws,
public proof functions named `law_*`, which relate several functions: what is
written is read back, a stream may arrive in any pieces, a connection that has
not subscribed is sent nothing, time stamps grow, and so on.

Outside code that the library calls (`roxmltree`, `hostname`, `png` and a few
functions of std) stands behind functions marked `external_body`; the comment
above each says what is believed of it.
