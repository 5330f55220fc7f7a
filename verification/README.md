# plotonomicon

A card game engine for conflicts and challenges, with its rules proved in Verus.

The deck holds 67 cards: the Excuse, 21 trumps and nine roles in each of five suits.
Suits beat each other around a cycle; trumps beat suits; the Excuse turns any
confrontation into an Excuse. A conflict between two sides moves a balance one step at a
time until one side wins.

Library (`src/`, verified):

- `cards`: suits, roles, cards, comparisons, and how a card beats another.
- `draw`: hands of drawn cards and how a hand beats another.
- `deck`: building, shuffling and drawing from the deck, refilled with a shuffled deck when empty.
- `balance`: the two sides and the balances of the three-state and bidding rules.
- `state`: a conflict played round after round.
- `overcome`: the rules for overcoming an obstacle.
- `simulate`: the conflict simulator's own rules.
- `text`: how cards and balances are written out.
- `cli`: card selections given on the command line.
- `tally`: how the simulators count outcomes.

Tools (`app/`): `rebuild`, `generate` and `generate-pages` build card images with external
image tools; `conflict` and `draw` play interactively; `simulate` and `simulate-conflict`
estimate outcome frequencies.
