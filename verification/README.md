# gametweaks

The backend of GameTweaks, a desktop tool that finds the Steam games of a
machine, installs BepInEx into Unity games, and installs and configures mods
from a curated catalog, talking to a small agent inside the running game.

The library in `src/` is written in Verus: its rules are executable
functions with contracts, proved against a mathematical model of their
inputs. What needs the file system, the network, the Windows pipe or the
running process stays outside it.

- `vdf`, `steam`: the Steam library files and the discovery of installed games.
- `detection`, `bepinex`, `paths`, `archives`, `packages`, `download`,
  `installs`, `processes`: inspecting a game, choosing and checking a BepInEx
  package, and the confirmed installation plans.
- `catalog`, `validate`, `plan`, `plans`, `mods`, `support`, `uninstall`:
  the mod catalog, dependency resolution, install and uninstall decisions.
- `commit`: moving files into place one after another and undoing the moves
  made when one fails.
- `fields`, `cfgfile`, `settings`, `overlay`: mod settings, the BepInEx
  configuration file editor, and what a connected agent reports.
- `agent`, `connections`, `staging`, `tokens`: the agent protocol, the
  connection registry, the deployment of the bundled agent, random secrets.
- `layout`: where GameTweaks keeps its files inside a game.
- `config`, `updater`, `version`, `error`: app settings, updates, errors.

Calls into outside crates (`semver`, `url`, `sha2`, `hmac`, `getrandom`)
stand behind small trusted wrappers whose contracts say what those crates
document.

`tests/` runs the library on concrete values. `app/` is a thin command-line
front end that reads and writes files and hands what it reads to the library.
