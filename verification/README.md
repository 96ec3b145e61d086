# headset_screenshots

Carries screenshots taken with a headset's own capture button to the PC that streams to it.

- `src/`: the verified library. The client side finds new captures (`watcher`, `filter`), splits
  them into packets and sends them (`upload`), and reports delivery (`feedback`). The server side
  puts the packets together again (`assembler`) and names the file (`moment`, `storage`). `laws`
  and `polling` state what holds across calls: what is uploaded arrives whole, whatever the order
  of its chunks and whatever else is on the way. No capture is sent twice, and each that stays in
  the collection until it is dealt with is sent exactly once.
- `app/`: the connection, the Android media collection and the file system around it.
- `tests/`: examples.
