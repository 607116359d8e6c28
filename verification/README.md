# world

The engine-independent rules of the rift game world, written in Verus and proved against
their contracts: what a map is made of and where one can walk, how paths are found, how
actors animate and sound, what the content tables hold and how they are checked, who sees
whom, how fights and npc minds decide, what the in-game terminal understands, and the
website's sign-in helpers.

## Layout

- `src/` — the verified library.
  - `nav`, `explore` — the walkability grid, the nearest walkable cell, A* routes (through the
    `pathfinding` crate) and breadth-first search for the nearest accepted tile.
  - `tiles`, `groups`, `properties`, `tilemap` — interned map tiles and layers, walkability and
    footstep cues per cell, z-sorted tile groups, tileset properties, and the index and frame
    textures of flat tile layers.
  - `actors`, `protocol`, `compass` — actor models and their animation cues, the wire
    vocabulary, integer positions and compass directions.
  - `content`, `assets` — content tables, their validation, rewards and loot, and the embedded
    asset table.
  - `ai`, `movement`, `visibility`, `identity` — combat and npc decisions, coming to rest and
    taking portals, replication visibility, sign-in identities.
  - `terminal` — command lines, arguments, usage and replies of the in-game terminal.
  - `client`, `site`, `web`, `auth` — the game client's session parameters and spectator UI,
    the website's pages, OpenID Connect sign-in (PKCE through `sha2`) and token claims.
  - `text` — string helpers the others share.
- `tests/` — ordinary Rust tests of the library.
- `app/` — the parts that do I/O, carry serde or float logic, or call `jsonwebtoken`, built on
  the library.
