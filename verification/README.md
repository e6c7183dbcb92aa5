# eventhub-http-roundrobin

A tiny producer that sends events to an Azure Event Hub over the **HTTP REST API** with **no
partition key**, so that Event Hubs round-robins the events across partitions. The library is
written and proved in Verus; the program around it does the input and output.

## Layout

| Path | What it holds |
| --- | --- |
| `src/text.rs` | whitespace, splitting and stripping of texts, decimal numbers |
| `src/text_lemmas.rs` | facts about texts that the other modules rest on |
| `src/connection.rs` | connection strings: what they say, the parser, and its laws |
| `src/config.rs` | the arguments, the configuration they resolve to, and the hub's addresses |
| `src/token.rs` | Shared Access Signature tokens |
| `src/request.rs` | the request that hands one event to the hub |
| `src/producer.rs` | the run: which event comes next, what it says, what became of it |
| `app/` | the program: command line, HTTP, Ctrl-C |

Public proof functions named `law_...` state what holds of the library as a whole: a configuration
is read back from its connection string, a signature covers the resource and the expiry, no request
carries broker properties, a run of n events sends exactly n.

## Auth

```
string_to_sign = urlencode(resource_uri) + "\n" + expiry_epoch_seconds
signature      = urlencode(base64(HMAC_SHA256(sas_key, string_to_sign)))
token          = "SharedAccessSignature sr={enc_uri}&sig={signature}&se={expiry}&skn={key_name}"
```

Percent-encoding, base64 and HMAC come from `urlencoding`, `base64`, `hmac` and `sha2`. What the
proofs take from them on trust stands in the contracts of the small functions in `src/token.rs` that
call them.

## Run

```sh
export EVENTHUB_CONNECTION_STRING='Endpoint=sb://NS.servicebus.windows.net/;SharedAccessKeyName=Send;SharedAccessKey=...;EntityPath=myhub'
eventhub-http-roundrobin --count 30 --interval-ms 250
```

If the connection string has no `EntityPath`, also set `EVENTHUB_NAME` (or pass `--event-hub`). Or
set `EVENTHUB_FQDN`, `EVENTHUB_NAME`, `EVENTHUB_SAS_KEY_NAME` and `EVENTHUB_SAS_KEY` in its place.
