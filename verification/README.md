# wheels

Small collection types written in Verus, each with contracts over a
mathematical model and proofs that the code meets them.

| Module  | Type                  | Model                          |
|---------|-----------------------|--------------------------------|
| `vec`   | `Vec<T>`              | `Seq<T>` plus a capacity       |
| `deque` | `Deque<T>` (ring)     | `Seq<T>` plus a capacity       |
| `heap`  | `BinaryHeap<T>`       | `Multiset<T>`                  |
| `map`   | `HashMap<K, V>`       | `Map<K::V, V>`                 |
| `set`   | `HashSet<T>`          | `Set<T::V>`                    |

Supporting modules:

- `order`: the `TotalOrder` trait that heap elements implement, with
  instances for the common integer types and `String` (ordered by UTF-8
  bytes).
- `key`: the `HashKey` trait that map keys and set elements implement; a
  key writes a canonical byte encoding to the standard `DefaultHasher`
  and compares with other keys by view.

Each type has a `wf` predicate that its constructors establish and its
methods preserve. What the operations do is stated in their `ensures`
clauses over the models. Public proof functions beside the types spell
out consequences that callers often need: facts about the models
themselves (a read after a write, a pop after a push), bounds that hold
of every well-formed value (length within capacity, the shape of a hash
table), and, for the heap, that popping until empty yields the elements
in non-increasing order.

Tests under `tests/` exercise the library from ordinary Rust.
