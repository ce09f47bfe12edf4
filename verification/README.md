# reinfors-core

Generic game, search and rollout primitives for reinforcement learning, verified with Verus.

A game is rules over states: whose turn it is, what is legal, what an action or a chance outcome leads
to. Around it stand encoders, which turn states into network inputs, rewards, policies, which evaluate
and act, and learners, which turn what happened into training records. The engine rolls many games
forward together.

## Layout

- `src/` is the library. Every function in it has a contract, and Verus proves it.
  - `game`, `encoder`, `reward`, `codec`, `start`, `episode`, `env`: what users supply, and single games.
  - `policies/tree`: selective expectimax, minimax, and Monte Carlo tree search guided by UCT or by a
    policy network.
  - `policies/modelfree`: acting on Q-values and on policy logits.
  - `learners`: TreeStrap, AlphaZero, n-step Q-learning and PPO records.
  - `engine`: the collector, its snapshots, and what every collection keeps.
  - `num`, `order`, `rng`, `parallel`, `util`: the ground they stand on.
- `app/` binds the library to floating-point numbers, to the sampling that needs them, and to panics
  with messages where a contract is broken.
- `tests/` runs the library.

## Laws

Beside the contracts stand laws: public proof functions whose names begin with `law_`. Among them are
these.

- Pooling changes no search, and no search depends on the frame in which rows name the actions
  (`policies/tree/expectimax/pure`).
- Every tree of a Monte Carlo pool holds together, and its root's visits add up to the simulations
  (`policies/tree/mcts/fates`).
- A restored engine stores itself as the same bytes and collects the same records
  (`engine/resume`, `engine/steady`).
- No record spans two collections where fragments are bootstrapped (`engine/live`).
- What is written is read back (`codec/bytes`, `engine/snapshot`).

## Numbers

The library is written over a trait of numbers, `num::Scalar`, whose operations carry no law beyond
their names. Contracts say which operations make a result, in which order, so they hold of any number
type. What transcendental functions and networks answer is left open: contracts say what is asked of
them and what becomes of each answer.

## Trust

Two functions in `src/parallel.rs` hand work to rayon. Nothing else is taken on trust.
