# rustnet

A userspace TCP/IP stack: IPv4, ICMP echo, UDP and a TCP with three-way
handshake, in-order delivery, retransmission and teardown. It serves a TCP
echo, a UDP echo and a tiny HTTP page, and runs on a Linux TUN interface. What
the stack does is stated in contracts and proved by Verus.

```sh
sudo rustnet            # creates tun0: host 10.0.0.1, stack 10.0.0.2

ping 10.0.0.2
echo hi | nc -u -w1 10.0.0.2 7
nc 10.0.0.2 7
curl http://10.0.0.2/
```

## Layout

- `checksum`, `wire`, `packet`, `text`: the internet checksum, big-endian
  integers, parsers and builders of the packet formats, addresses as text.
- `seqno`, `connection_model`, `tcp`: sequence numbers, a TCP connection as a
  mathematical state machine, and the connection that implements it.
- `service`, `http`: what listening ports do with their connections.
- `stack_model`, `stack`: the stack as a mathematical object, and the stack
  that implements it.
- `interface`, `driver`: the request that sets up a TUN interface, the options
  of the program and the pace of its timers.
- `*_laws`: what follows for the library as a whole, such as that what is built
  is read back, that nothing of a stream is lost or reordered, and what every
  kind of packet is answered. `*_proof`: proofs that the code rests on.
- `app/`: the program around the library, which opens the device and moves
  packets between it and the stack.

## What is trusted

`text::text_of` calls `String::from_utf8_lossy`, of which it is believed that
the result depends on the bytes alone and that UTF-8 is decoded as it stands.
A `Service` written outside the library is believed to behave as it says, which
by default is nothing.
