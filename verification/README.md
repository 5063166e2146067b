# fraud_detector

A real-time transaction classifier. Conservative rules approve obviously
normal purchases at once; every other request is turned into a 14-dimension
quantized vector and answered from the five exact nearest neighbors in a
partitioned KD-tree index of labelled reference transactions.

The library in `src/` is written in Verus, and its contracts are proved:

- `http`, `json`, `linear`, `numbers`, `text`: request framing and payload
  extraction, each equal to a specification of the input bytes;
- `cache`, `fast_path`, `tier`, `features`, `quantize`: derived fields, the
  fast-path rules and the feature vector;
- `index`, `bytes`: the index file format and its header checks
  (`Index::open`), with a separate tree check (`Index::tree_valid`);
- `knn`: the exact 5-NN label count, with pruning by box lower bounds;
- `builder`: the offline index builder, whose output opens, passes the tree
  check for 0/1 labels, and holds exactly the references it was built from;
- `refs`: the two together, stated over the reference list;
- `response`, `score`: the HTTP replies for each count;
- `perf`, `config`, `balancer`, `tools`: counters, fixed configuration, load
  balancing and gateway decisions.

`app/` holds the processes around the library: the epoll gateway that
receives client sockets from the load balancer, the load balancer itself, the
index build command, the health probe and the profiling runtime. `tests/`
exercises the library on concrete inputs.
