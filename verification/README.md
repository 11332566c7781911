# fio

The verified core of an experimental HTTP server. The library in `src/` decides what is made of the
bytes that a client sends and what is done next; its contracts are proved with Verus. `app/` puts
sockets, threads and asynchronous runtimes around it.

| module | holds |
| --- | --- |
| `http_server` | the choice of the one enabled mode, and the length of the accept queue |
| `connection` | a connection over a stream: requests out of what was received, answers in order |
| `rounds` | what comes out of the bytes of a connection, however they are cut into receives |
| `uring` | a connection over io_uring: one request for each receive |
| `request` | decoding of requests, the length of bodies, parameters of queries and forms |
| `query` | the names and values of a query |
| `body` | reading of request bodies out of a buffer and a stream |
| `head` | request lines and headers |
| `form`, `params` | form data and the parameters that it sets |
| `buf` | the byte buffers |
| `scan`, `text` | bytes, digits, words and UTF-8 |
| `io_uring` | ready-made responses |

Exactly one mode may be enabled, and `app/` takes it as a type: work stealing, share nothing,
io_uring with a registry of buffers, or io_uring with a pool of buffers. Responses are encoded by the
service, through the trait `Response` in `app/`.

A request whose body is not read leaves the body in the buffer, where it is taken for the next
request. A connection over io_uring sends with each answer the earlier ones again.
